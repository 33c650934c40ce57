use crate::error::InputError;
use crate::model::{
    cell_linked, col_cells, cols_ok, cov_ok, fixed_ok, gap_ok, h_gap, h_in, h_ok, h_reach,
    in_list, inv, lemma_cell_facts, lemma_col_cells_bound, lemma_col_cells_low,
    lemma_distinct_bounded, links_ok, name_ok, reach, ring_ok, rings_ok, Layout, State,
};
use crate::utils::{Node, Record};
use vstd::prelude::*;

verus! {

/// The layout of an instance that has its items and no option yet.
pub open spec fn empty_layout(primary: int, names: Seq<Seq<char>>) -> Layout {
    Layout {
        primary,
        count: names.len() as int,
        names,
        options: Seq::empty(),
        starts: Seq::empty(),
        rows: Seq::new((names.len() + 2) as nat, |x: int| -1int),
    }
}

/// The arrays as they stand when the items are declared and no option is:
/// every column is empty, the primary items form a ring with the root, the
/// secondary items another with the trailing sentinel.
pub open spec fn fresh(l: Layout, st: State) -> bool {
    let n = l.count;
    &&& st.items.len() == n + 2
    &&& st.nodes.len() == n + 2
    &&& st.linked.len() == n + 2
    &&& st.cov.len() == 0
    &&& forall|j: int|
        0 <= j < n + 2 ==> name_ok(l, j, (#[trigger] st.items[j]).name) && st.items[j].length == 0
    &&& forall|j: int|
        1 <= j <= n ==> (#[trigger] st.items[j]).left == (if j == l.primary + 1 {
            n + 1
        } else {
            j - 1
        }) && st.items[j].right == (if j == l.primary {
            0
        } else {
            j + 1
        })
    &&& st.items[0].left == l.primary
    &&& st.items[0].right == (if l.primary == 0 {
        0int
    } else {
        1int
    })
    &&& st.items[n + 1].left == (if l.primary == n {
        n + 1
    } else {
        n
    })
    &&& st.items[n + 1].right == l.primary + 1
    &&& forall|x: int| 0 <= x < n + 2 ==> (#[trigger] st.nodes[x]).top == 0
    &&& forall|x: int| 1 <= x <= n ==> (#[trigger] st.nodes[x]).up == x && st.nodes[x].down == x
    &&& st.nodes[0].up == 0 && st.nodes[0].down == 0
    &&& st.nodes[n + 1].up == 0 && st.nodes[n + 1].down == 0
}

/// A fresh structure is sound.
pub proof fn lemma_fresh_inv(primary: int, names: Seq<Seq<char>>, st: State)
    requires
        0 <= primary <= names.len(),
        names.no_duplicates(),
        fresh(empty_layout(primary, names), st),
    ensures
        empty_layout(primary, names).wf(),
        inv(empty_layout(primary, names), st),
{
    let l = empty_layout(primary, names);
    let n = l.count;
    assert(l.wf());
    assert(fixed_ok(l, st)) by {
        assert forall|x: int| 0 <= x < l.size() implies (#[trigger] st.nodes[x]).up < l.size() by {
            if 1 <= x <= n {
            }
        }
        assert forall|x: int| 0 <= x < l.size() implies (#[trigger] st.nodes[x]).down
            < l.size() by {
            if 1 <= x <= n {
            }
        }
    }
    assert(cols_ok(l, st)) by {
        assert forall|x: int| 0 <= x < l.size() && in_list(l, st, x) implies #[trigger] ring_ok(
            l,
            st,
            x,
        ) by {
            assert(st.nodes[x].up == x);
        }
        assert forall|x: int| 0 <= x < l.size() && in_list(l, st, x) implies #[trigger] gap_ok(
            l,
            st,
            x,
        ) by {}
        assert forall|j: int| 1 <= j <= l.count implies (#[trigger] st.items[j]).length
            == col_cells(l, st, j, l.size()).len() by {
            lemma_col_cells_low(l, st, j, l.size());
        }
    }
    assert(rings_ok(l, st)) by {
        assert forall|j: int| 0 <= j < l.count + 2 implies (#[trigger] st.items[j]).left < l.count
            + 2 by {
            if 1 <= j <= n {
            }
        }
        assert forall|j: int| 0 <= j < l.count + 2 implies (#[trigger] st.items[j]).right
            < l.count + 2 by {
            if 1 <= j <= n {
            }
        }
        assert forall|j: int| 0 <= j < l.count + 2 && h_in(l, st, j) implies #[trigger] h_ok(
            l,
            st,
            j,
        ) by {
            let a = st.items[j].left as int;
            let b = st.items[j].right as int;
            if 1 <= j <= n {
                assert(st.items[j].right == (if j == l.primary {
                    0
                } else {
                    j + 1
                }));
            }
            if 1 <= a <= n {
                assert(st.items[a].right == (if a == l.primary {
                    0
                } else {
                    a + 1
                }));
            }
            if 1 <= b <= n {
                assert(st.items[b].left == (if b == l.primary + 1 {
                    n + 1
                } else {
                    b - 1
                }));
            }
            if j <= l.primary {
                assert(h_gap(l, st, j));
            }
        }
    }
    assert(cov_ok(l, st));
    assert(links_ok(l, st));
}

/// The layout with one more option, placed at the end of the arena.
pub open spec fn extended(l: Layout, ids: Seq<int>) -> Layout {
    Layout {
        options: l.options.push(ids),
        starts: l.starts.push(l.size()),
        rows: l.rows + Seq::new((ids.len() + 1) as nat, |k: int| l.options.len() as int),
        ..l
    }
}

/// Where item `j` stands in the option `ids`, or -1 if it does not.
pub open spec fn pos(ids: Seq<int>, j: int) -> int {
    if ids.contains(j) {
        ids.index_of(j)
    } else {
        -1
    }
}

/// The items of a new option are distinct items of the instance.
pub open spec fn ids_ok(l: Layout, ids: Seq<int>) -> bool {
    &&& ids.no_duplicates()
    &&& forall|s: int| 0 <= s < ids.len() ==> 1 <= #[trigger] ids[s] <= l.count
}

/// Where an item stands in a list of distinct items.
pub proof fn lemma_pos(ids: Seq<int>, j: int)
    requires
        ids.no_duplicates(),
    ensures
        -1 <= pos(ids, j) < ids.len(),
        pos(ids, j) >= 0 ==> ids[pos(ids, j)] == j,
        pos(ids, j) < 0 ==> !ids.contains(j),
        forall|s: int| 0 <= s < ids.len() && #[trigger] ids[s] == j ==> pos(ids, j) == s,
{
    if ids.contains(j) {
        ids.index_of_first_ensures(j);
        let w = choose|w: int| 0 <= w < ids.len() && ids[w] == j;
        assert(ids.contains(j));
    }
}

/// The pointer up that position `x` holds once the first `t` cells of the
/// new option are in place: the header of each item named so far points to
/// the item's new cell.
pub open spec fn new_up(l: Layout, st0: State, ids: Seq<int>, t: int, x: int) -> usize {
    if 1 <= x <= l.count && 0 <= pos(ids, x) < t {
        (l.size() + pos(ids, x)) as usize
    } else {
        st0.nodes[x].up
    }
}

/// The pointer down that position `x` holds once the first `t` cells of
/// the new option are in place: what was last in the column of an item
/// named so far points to the item's new cell.
pub open spec fn new_down(l: Layout, st0: State, ids: Seq<int>, t: int, x: int) -> usize {
    let j = l.col(x);
    if in_list(l, st0, x) && 0 <= pos(ids, j) < t && st0.nodes[j].up == x {
        (l.size() + pos(ids, j)) as usize
    } else {
        st0.nodes[x].down
    }
}

/// The arrays once the first `t` cells of the new option `ids` stand at the
/// end of the arena of `st0`.
pub open spec fn grown(l: Layout, st0: State, ids: Seq<int>, t: int, st: State) -> bool {
    let n0 = l.size();
    &&& st.items.len() == st0.items.len()
    &&& st.nodes.len() == n0 + t
    &&& st.cov == st0.cov
    &&& forall|j: int|
        0 <= j < st.items.len() ==> #[trigger] st.items[j] == (if 0 <= pos(ids, j) < t {
            Record { length: (st0.items[j].length + 1) as usize, ..st0.items[j] }
        } else {
            st0.items[j]
        })
    &&& forall|x: int|
        n0 <= x < n0 + t ==> #[trigger] st.nodes[x] == (Node {
            top: ids[x - n0] as isize,
            up: st0.nodes[ids[x - n0]].up,
            down: ids[x - n0] as usize,
        })
    &&& forall|x: int|
        0 <= x < n0 ==> #[trigger] st.nodes[x] == (Node {
            top: st0.nodes[x].top,
            up: new_up(l, st0, ids, t, x),
            down: new_down(l, st0, ids, t, x),
        })
}

/// The arrays once the whole option `ids` and its closing spacer stand at
/// the end of the arena of `st0`.
#[verifier::opaque]
pub open spec fn appended(l: Layout, st0: State, ids: Seq<int>, st: State) -> bool {
    let n0 = l.size();
    let k = ids.len() as int;
    &&& st.items.len() == st0.items.len()
    &&& st.nodes.len() == n0 + k + 1
    &&& st.cov == st0.cov
    &&& st.linked == st0.linked + Seq::new((k + 1) as nat, |x: int| true)
    &&& forall|j: int|
        0 <= j < st.items.len() ==> #[trigger] st.items[j] == (if 0 <= pos(ids, j) {
            Record { length: (st0.items[j].length + 1) as usize, ..st0.items[j] }
        } else {
            st0.items[j]
        })
    &&& forall|x: int|
        n0 <= x < n0 + k ==> #[trigger] st.nodes[x] == (Node {
            top: ids[x - n0] as isize,
            up: st0.nodes[ids[x - n0]].up,
            down: ids[x - n0] as usize,
        })
    &&& forall|x: int|
        0 <= x < n0 - 1 ==> #[trigger] st.nodes[x] == (Node {
            top: st0.nodes[x].top,
            up: new_up(l, st0, ids, k, x),
            down: new_down(l, st0, ids, k, x),
        })
    &&& st.nodes[n0 - 1] == (Node { down: (n0 + k - 1) as usize, ..st0.nodes[n0 - 1] })
    &&& st.nodes[n0 + k] == (Node {
        top: (st0.nodes[n0 - 1].top - 1) as isize,
        up: n0 as usize,
        down: 0,
    })
}

/// The layout with one more option is a layout.
pub proof fn lemma_extended_wf(l: Layout, ids: Seq<int>)
    requires
        l.wf(),
        ids_ok(l, ids),
    ensures
        extended(l, ids).wf(),
        extended(l, ids).size() == l.size() + ids.len() + 1,
{
    let l2 = extended(l, ids);
    let o = l.options.len() as int;
    let n0 = l.size();
    assert(l2.starts.last() == n0);
    assert(l2.options.last() == ids);
    assert forall|x: int| 0 <= x < l2.count + 2 implies #[trigger] l2.rows[x] == -1 by {
        assert(l2.rows[x] == l.rows[x]);
    }
    assert forall|x: int| l2.count + 2 <= x < l2.size() implies {
        &&& 0 <= #[trigger] l2.rows[x] < l2.options.len()
        &&& l2.starts[l2.rows[x]] <= x
        &&& x <= l2.starts[l2.rows[x]] + l2.options[l2.rows[x]].len()
    } by {
        if x < n0 {
            assert(l2.rows[x] == l.rows[x]);
            assert(0 <= l.rows[x] < l.options.len());
        } else {
            assert(l2.rows[x] == o);
        }
    }
    assert forall|a: int, b: int|
        0 <= a < l2.options.len() && 0 <= b <= l2.options[a].len() implies {
        &&& l2.count + 2 <= #[trigger] l2.at(a, b) < l2.size()
        &&& l2.rows[l2.at(a, b)] == a
    } by {
        if a < o {
            assert(l2.at(a, b) == l.at(a, b));
            assert(l.rows[l.at(a, b)] == a);
        }
    }
    assert forall|a: int, b: int|
        0 <= a < l2.options.len() && 0 <= b < l2.options[a].len() implies 1
        <= #[trigger] l2.options[a][b] <= l2.count by {
        if a < o {
            assert(l2.options[a][b] == l.options[a][b]);
        }
    }
    assert forall|a: int| 0 <= a < l2.options.len() implies (
    #[trigger] l2.options[a]).no_duplicates() by {
        if a < o {
            assert(l2.options[a] == l.options[a]);
        }
    }
}

/// What the longer layout says of each position.
pub proof fn lemma_extended_places(l: Layout, ids: Seq<int>, x: int)
    requires
        l.wf(),
        ids_ok(l, ids),
        0 <= x < l.size() + ids.len() + 1,
    ensures
        ({
            let l2 = extended(l, ids);
            let n0 = l.size();
            &&& x < n0 ==> {
                &&& l2.is_cell(x) == l.is_cell(x)
                &&& l2.is_spacer(x) == l.is_spacer(x)
                &&& l2.top(x) == l.top(x)
                &&& l2.col(x) == l.col(x)
                &&& l2.rows[x] == l.rows[x]
                &&& x >= l.count + 2 ==> l2.first(x) == l.first(x) && l2.close(x) == l.close(x)
            }
            &&& x >= n0 ==> {
                &&& l2.rows[x] == l.options.len()
                &&& l2.first(x) == n0
                &&& l2.close(x) == n0 + ids.len()
                &&& l2.is_cell(x) == (x < n0 + ids.len())
                &&& l2.is_spacer(x) == (x == n0 + ids.len())
                &&& x < n0 + ids.len() ==> l2.top(x) == ids[x - n0] && l2.col(x) == ids[x - n0]
                &&& x == n0 + ids.len() ==> l2.top(x) == -(l.options.len() + 1)
            }
        }),
{
    let l2 = extended(l, ids);
    let n0 = l.size();
    if x < n0 {
        assert(l2.rows[x] == l.rows[x]);
        if x >= l.count + 2 {
            assert(0 <= l.rows[x] < l.options.len());
        }
    } else {
        assert(l2.rows[x] == l.options.len());
    }
}

/// There are no more options than positions after the headers.
pub proof fn lemma_options_bounded(l: Layout)
    requires
        l.wf(),
    ensures
        l.options.len() <= l.size() - l.count - 2,
        l.options.len() == 0 ==> l.top(l.size() - 1) == 0,
        l.top(l.size() - 1) == -(l.options.len() as int),
        !l.is_cell(l.size() - 1),
{
    assert forall|a: int, b: int|
        0 <= a < l.starts.len() && 0 <= b < l.starts.len() && a != b implies l.starts[a]
        != l.starts[b] by {
        assert(l.at(a, 0) == l.starts[a]);
        assert(l.at(b, 0) == l.starts[b]);
    }
    assert forall|t: int| 0 <= t < l.starts.len() implies l.count + 2 <= #[trigger] l.starts[t]
        < l.size() by {
        assert(l.at(t, 0) == l.starts[t]);
    }
    lemma_distinct_bounded(l.starts, l.count + 2, l.size());
    if l.options.len() > 0 {
        let o = l.options.len() - 1;
        assert(l.at(o, l.options[o].len() as int) == l.size() - 1);
    }
}

/// With nothing covered every cell is threaded.
pub proof fn lemma_idle_linked(l: Layout, st: State, x: int)
    requires
        inv(l, st),
        st.cov.len() == 0,
        l.is_cell(x),
    ensures
        st.linked[x],
{
    assert(st.linked[x] == cell_linked(l, st.cov, x));
}

/// After an option was appended, the fixed parts of the arrays are those
/// of the longer layout.
proof fn lemma_append_fixed(l: Layout, st0: State, ids: Seq<int>, st: State)
    requires
        l.wf(),
        inv(l, st0),
        st0.cov.len() == 0,
        ids_ok(l, ids),
        appended(l, st0, ids, st),
        l.size() + ids.len() + 1 <= isize::MAX,
    ensures
        fixed_ok(extended(l, ids), st),
{
    reveal(appended);
    let l2 = extended(l, ids);
    let n0 = l.size();
    let k = ids.len() as int;
    lemma_extended_wf(l, ids);
    lemma_options_bounded(l);
    assert forall|j: int| 0 <= j < l2.count + 2 implies name_ok(
        l2,
        j,
        (#[trigger] st.items[j]).name,
    ) by {
        assert(name_ok(l, j, st0.items[j].name));
    }
    assert forall|x: int| 0 <= x < l2.size() implies (#[trigger] st.nodes[x]).top == l2.top(x)
        && st.nodes[x].up < l2.size() && st.nodes[x].down < l2.size() by {
        lemma_extended_places(l, ids, x);
        if x < n0 {
            assert(st0.nodes[x].top == l.top(x));
            assert(st0.nodes[x].up < n0);
            assert(st0.nodes[x].down < n0);
            lemma_pos(ids, x);
            lemma_pos(ids, l.col(x));
        } else if x < n0 + k {
            let j = ids[x - n0];
            assert(st0.nodes[j].up < n0);
        } else {
            assert(st0.nodes[n0 - 1].top == l.top(n0 - 1));
        }
    }
    assert forall|x: int| #[trigger] l2.is_spacer(x) implies st.nodes[x].up == l2.first(x) by {
        lemma_extended_places(l, ids, x);
        if x < n0 {
            assert(l.is_spacer(x));
            assert(st0.nodes[x].up == l.first(x));
        }
    }
    assert forall|x: int|
        l2.count + 1 <= x < l2.size() - 1 && !#[trigger] l2.is_cell(x) implies st.nodes[x].down
        == l2.close(x + 1) - 1 by {
        lemma_extended_places(l, ids, x);
        lemma_extended_places(l, ids, x + 1);
        if x < n0 - 1 {
            assert(!l.is_cell(x));
            assert(st0.nodes[x].down == l.close(x + 1) - 1);
        }
    }
}

/// What an appended state holds at position `y`, in terms of the state
/// before.
#[verifier::rlimit(40)]
proof fn lemma_app_node(l: Layout, st0: State, ids: Seq<int>, st: State, y: int)
    requires
        l.wf(),
        inv(l, st0),
        st0.cov.len() == 0,
        ids_ok(l, ids),
        appended(l, st0, ids, st),
        l.size() + ids.len() + 1 <= isize::MAX,
        0 <= y < l.size() + ids.len() + 1,
    ensures
        ({
            let l2 = extended(l, ids);
            let n0 = l.size();
            let k = ids.len() as int;
            &&& st.nodes.len() == n0 + k + 1
            &&& in_list(l2, st, y) <==> (y < n0 && in_list(l, st0, y)) || n0 <= y < n0 + k
            &&& in_list(l2, st, y) ==> 1 <= l2.col(y) <= l.count
            &&& y < n0 ==> l2.col(y) == l.col(y)
            &&& n0 <= y < n0 + k ==> {
                &&& l2.col(y) == ids[y - n0]
                &&& pos(ids, ids[y - n0]) == y - n0
                &&& st.nodes[y].up == st0.nodes[ids[y - n0]].up
                &&& st.nodes[y].down == ids[y - n0]
            }
            &&& y < n0 && in_list(l, st0, y) ==> {
                let j = l.col(y);
                &&& st.nodes[y].up == (if 1 <= y <= l.count && 0 <= pos(ids, y) {
                    n0 + pos(ids, y)
                } else {
                    st0.nodes[y].up as int
                })
                &&& st.nodes[y].down == (if 0 <= pos(ids, j) && st0.nodes[j].up == y {
                    n0 + pos(ids, j)
                } else {
                    st0.nodes[y].down as int
                })
            }
        }),
{
    reveal(appended);
    let l2 = extended(l, ids);
    let n0 = l.size();
    let k = ids.len() as int;
    lemma_extended_wf(l, ids);
    lemma_options_bounded(l);
    lemma_extended_places(l, ids, y);
    if y < n0 {
        if l.is_cell(y) {
            lemma_cell_facts(l, y);
            lemma_idle_linked(l, st0, y);
        }
        lemma_pos(ids, y);
        lemma_pos(ids, l.col(y));
        if in_list(l, st0, y) {
            assert(y < n0 - 1);
            assert(st.nodes[y].up == new_up(l, st0, ids, k, y));
            assert(st.nodes[y].down == new_down(l, st0, ids, k, y));
        }
    } else if y < n0 + k {
        lemma_pos(ids, ids[y - n0]);
    }
}

/// After an option was appended, every member of a column that was there
/// before agrees with its neighbours.
#[verifier::rlimit(40)]
proof fn lemma_append_ring_old(l: Layout, st0: State, ids: Seq<int>, st: State, x: int)
    requires
        l.wf(),
        inv(l, st0),
        st0.cov.len() == 0,
        ids_ok(l, ids),
        appended(l, st0, ids, st),
        l.size() + ids.len() + 1 <= isize::MAX,
        0 <= x < l.size(),
        in_list(l, st0, x),
    ensures
        ring_ok(extended(l, ids), st, x),
{
    let l2 = extended(l, ids);
    let n0 = l.size();
    let k = ids.len() as int;
    let j = l.col(x);
    lemma_app_node(l, st0, ids, st, x);
    lemma_pos(ids, j);
    assert(ring_ok(l, st0, x));
    assert(in_list(l, st0, j));
    assert(ring_ok(l, st0, j));
    let d0 = st0.nodes[x].down as int;
    let u0 = st0.nodes[x].up as int;
    assert(ring_ok(l, st0, d0));
    assert(ring_ok(l, st0, u0));
    lemma_app_node(l, st0, ids, st, d0);
    lemma_app_node(l, st0, ids, st, u0);
    let d = st.nodes[x].down as int;
    let u = st.nodes[x].up as int;
    lemma_app_node(l, st0, ids, st, d);
    lemma_app_node(l, st0, ids, st, u);
}

/// After an option was appended, no threaded cell lies between a member
/// that was there before and its neighbour below.
proof fn lemma_append_gap_old(l: Layout, st0: State, ids: Seq<int>, st: State, x: int)
    requires
        l.wf(),
        inv(l, st0),
        st0.cov.len() == 0,
        ids_ok(l, ids),
        appended(l, st0, ids, st),
        l.size() + ids.len() + 1 <= isize::MAX,
        0 <= x < l.size(),
        in_list(l, st0, x),
    ensures
        gap_ok(extended(l, ids), st, x),
{
    let l2 = extended(l, ids);
    let n0 = l.size();
    let k = ids.len() as int;
    let j = l.col(x);
    lemma_app_node(l, st0, ids, st, x);
    lemma_pos(ids, j);
    assert(ring_ok(l, st0, x));
    assert(gap_ok(l, st0, x));
    assert(in_list(l, st0, j));
    assert(ring_ok(l, st0, j));
    let d0 = st0.nodes[x].down as int;
    let d = st.nodes[x].down as int;
    assert forall|z: int|
        x < z < reach(l2, st, x) && l2.is_cell(z) && l2.top(z) == l2.col(
            x,
        ) implies !#[trigger] st.linked[z] by {
        lemma_extended_places(l, ids, z);
        if z < n0 {
            lemma_idle_linked(l, st0, z);
            assert(!st0.linked[z]);
        } else {
            assert(ids[z - n0] == j);
        }
    }
}

/// After an option was appended, each of its cells is the last one of
/// its column.
proof fn lemma_append_ring_new(l: Layout, st0: State, ids: Seq<int>, st: State, x: int)
    requires
        l.wf(),
        inv(l, st0),
        st0.cov.len() == 0,
        ids_ok(l, ids),
        appended(l, st0, ids, st),
        l.size() + ids.len() + 1 <= isize::MAX,
        l.size() <= x < l.size() + ids.len(),
    ensures
        ring_ok(extended(l, ids), st, x),
        gap_ok(extended(l, ids), st, x),
{
    let l2 = extended(l, ids);
    let n0 = l.size();
    let k = ids.len() as int;
    let j = ids[x - n0];
    lemma_app_node(l, st0, ids, st, x);
    lemma_pos(ids, j);
    assert(in_list(l, st0, j));
    assert(ring_ok(l, st0, j));
    let u = st0.nodes[j].up as int;
    lemma_app_node(l, st0, ids, st, u);
    lemma_app_node(l, st0, ids, st, j);
    assert(ring_ok(l2, st, x));
    assert forall|z: int|
        x < z < reach(l2, st, x) && l2.is_cell(z) && l2.top(z) == l2.col(
            x,
        ) implies !#[trigger] st.linked[z] by {
        lemma_extended_places(l, ids, z);
        assert(ids[z - n0] == j);
    }
}

/// After an option was appended, every column is a sound ring.
proof fn lemma_append_ring(l: Layout, st0: State, ids: Seq<int>, st: State, x: int)
    requires
        l.wf(),
        inv(l, st0),
        st0.cov.len() == 0,
        ids_ok(l, ids),
        appended(l, st0, ids, st),
        l.size() + ids.len() + 1 <= isize::MAX,
        0 <= x < l.size() + ids.len() + 1,
        in_list(extended(l, ids), st, x),
    ensures
        ring_ok(extended(l, ids), st, x),
        gap_ok(extended(l, ids), st, x),
{
    lemma_app_node(l, st0, ids, st, x);
    if x < l.size() {
        lemma_append_ring_old(l, st0, ids, st, x);
        lemma_append_gap_old(l, st0, ids, st, x);
    } else {
        lemma_append_ring_new(l, st0, ids, st, x);
    }
}

/// Threaded cells of column `j` among the positions below `m`, counted in
/// two layouts that agree there.
proof fn lemma_col_cells_agree(l: Layout, a: State, l2: Layout, b: State, j: int, m: int)
    requires
        forall|x: int|
            0 <= x < m ==> (l.is_cell(x) && l.top(x) == j && a.linked[x]) == (l2.is_cell(x)
                && l2.top(x) == j && b.linked[x]),
    ensures
        col_cells(l, a, j, m) == col_cells(l2, b, j, m),
    decreases m,
{
    if m > 0 {
        lemma_col_cells_agree(l, a, l2, b, j, m - 1);
    }
}

/// After an option was appended, each column it names has one cell more.
proof fn lemma_append_count(l: Layout, st0: State, ids: Seq<int>, st: State, j: int, m: int)
    requires
        l.wf(),
        inv(l, st0),
        st0.cov.len() == 0,
        ids_ok(l, ids),
        appended(l, st0, ids, st),
        1 <= j <= l.count,
        l.size() <= m <= l.size() + ids.len() + 1,
    ensures
        col_cells(extended(l, ids), st, j, m).len() == col_cells(l, st0, j, l.size()).len() + (if 0
            <= pos(ids, j) < m - l.size() {
            1int
        } else {
            0int
        }),
    decreases m,
{
    reveal(appended);
    let l2 = extended(l, ids);
    let n0 = l.size();
    lemma_pos(ids, j);
    if m == n0 {
        assert forall|x: int| 0 <= x < m implies (l.is_cell(x) && l.top(x) == j && st0.linked[x])
            == (l2.is_cell(x) && l2.top(x) == j && st.linked[x]) by {
            lemma_extended_places(l, ids, x);
        }
        lemma_col_cells_agree(l, st0, l2, st, j, m);
    } else {
        lemma_append_count(l, st0, ids, st, j, m - 1);
        lemma_extended_places(l, ids, m - 1);
    }
}

/// Appending an option to a structure with nothing covered leaves a sound
/// structure for the longer layout.
pub proof fn lemma_append_inv(l: Layout, st0: State, ids: Seq<int>, st: State)
    requires
        l.wf(),
        inv(l, st0),
        st0.cov.len() == 0,
        ids_ok(l, ids),
        appended(l, st0, ids, st),
        l.size() + ids.len() + 1 <= isize::MAX,
    ensures
        extended(l, ids).wf(),
        inv(extended(l, ids), st),
{
    let l2 = extended(l, ids);
    let n0 = l.size();
    lemma_extended_wf(l, ids);
    lemma_append_fixed(l, st0, ids, st);
    assert(st.cov == st0.cov && st.items.len() == st0.items.len()) by {
        reveal(appended);
    }
    assert forall|x: int| 0 <= x < l2.size() && in_list(l2, st, x) implies #[trigger] ring_ok(
        l2,
        st,
        x,
    ) by {
        lemma_append_ring(l, st0, ids, st, x);
    }
    assert forall|x: int| 0 <= x < l2.size() && in_list(l2, st, x) implies #[trigger] gap_ok(
        l2,
        st,
        x,
    ) by {
        lemma_append_ring(l, st0, ids, st, x);
    }
    assert forall|j: int| 1 <= j <= l2.count implies (#[trigger] st.items[j]).length == col_cells(
        l2,
        st,
        j,
        l2.size(),
    ).len() by {
        reveal(appended);
        lemma_append_count(l, st0, ids, st, j, l2.size());
        lemma_pos(ids, j);
        assert(st0.items[j].length == col_cells(l, st0, j, l.size()).len());
        lemma_col_cells_bound(l2, st, j, l2.size());
    }
    assert(rings_ok(l2, st)) by {
        reveal(appended);
        assert forall|j: int| 0 <= j < l2.count + 2 implies (#[trigger] st.items[j]).left
            == st0.items[j].left && st.items[j].right == st0.items[j].right by {
            lemma_pos(ids, j);
        }
        assert forall|j: int| 0 <= j < l2.count + 2 && h_in(l2, st, j) implies #[trigger] h_ok(
            l2,
            st,
            j,
        ) by {
            assert(h_in(l, st0, j));
            assert(h_ok(l, st0, j));
            if j <= l.primary {
                assert(h_gap(l, st0, j));
                assert forall|q: int|
                    j < q < h_reach(l2, st, j) implies #[trigger] st.cov.contains(q) by {
                    assert(st0.cov.contains(q));
                }
            }
        }
        assert forall|j: int| 0 <= j < l2.count + 2 implies (#[trigger] st.items[j]).left
            < l2.count + 2 by {
            assert(st0.items[j].left < l.count + 2);
        }
        assert forall|j: int| 0 <= j < l2.count + 2 implies (#[trigger] st.items[j]).right
            < l2.count + 2 by {
            assert(st0.items[j].right < l.count + 2);
        }
    }
    assert(links_ok(l2, st)) by {
        reveal(appended);
        assert forall|x: int| l2.is_cell(x) implies #[trigger] st.linked[x] == cell_linked(
            l2,
            st.cov,
            x,
        ) by {
            lemma_extended_places(l, ids, x);
            if x < n0 {
                lemma_idle_linked(l, st0, x);
            }
        }
    }
}

/// The items that the words of an option name, by number, or why the
/// option is refused. The words are taken left to right, and the first one
/// that is unknown, or names an item for the second time, decides.
pub open spec fn resolve(names: Seq<Seq<char>>, ws: Seq<Seq<char>>) -> Result<
    Seq<int>,
    InputError,
>
    decreases ws.len(),
{
    if ws.len() == 0 {
        Ok(Seq::empty())
    } else {
        match resolve(names, ws.drop_last()) {
            Err(e) => Err(e),
            Ok(ids) => {
                if !names.contains(ws.last()) {
                    Err(InputError::UnknownItem)
                } else if ids.contains(names.index_of(ws.last()) + 1) {
                    Err(InputError::DuplicateItemInOption)
                } else {
                    Ok(ids.push(names.index_of(ws.last()) + 1))
                }
            },
        }
    }
}

/// The numbers held by a list of indices.
pub open spec fn as_ints(v: Seq<usize>) -> Seq<int> {
    Seq::new(v.len(), |k: int| v[k] as int)
}

/// Where a name stands in a list without repetitions.
pub proof fn lemma_index_of(names: Seq<Seq<char>>, k: int)
    requires
        names.no_duplicates(),
        0 <= k < names.len(),
    ensures
        names.contains(names[k]),
        names.index_of(names[k]) == k,
{
    names.index_of_first_ensures(names[k]);
}

/// The state after one more cell, for item `i`, was put at the end of the
/// arena and at the bottom of the item's column.
pub open spec fn grow_one(st: State, i: int) -> State {
    let j = st.nodes.len() as int;
    let u = st.nodes[i].up as int;
    let n1 = st.nodes.push(Node { top: i as isize, up: u as usize, down: i as usize });
    let n2 = n1.update(u, Node { down: j as usize, ..n1[u] });
    let n3 = n2.update(i, Node { up: j as usize, ..n2[i] });
    State {
        items: st.items.update(
            i,
            Record { length: (st.items[i].length + 1) as usize, ..st.items[i] },
        ),
        nodes: n3,
        ..st
    }
}

/// The state after the closing spacer was put behind the cells of the new
/// option, and the spacer before them was told where the option ends.
pub open spec fn close_one(st: State, n0: int) -> State {
    let len = st.nodes.len() as int;
    let n1 = st.nodes.push(
        Node { top: (st.nodes[n0 - 1].top - 1) as isize, up: n0 as usize, down: 0 },
    );
    let n2 = n1.update(n0 - 1, Node { down: (len - 1) as usize, ..n1[n0 - 1] });
    State {
        nodes: n2,
        linked: st.linked + Seq::new((len - n0 + 1) as nat, |x: int| true),
        ..st
    }
}

/// Before any cell of the new option is in place, the arrays are as they
/// were.
pub proof fn lemma_grow_start(l: Layout, st0: State, ids: Seq<int>)
    requires
        l.wf(),
        inv(l, st0),
        ids_ok(l, ids),
    ensures
        grown(l, st0, ids, 0, st0),
{
}

/// One more cell in place: what the step needs, and what it leaves.
pub proof fn lemma_grow_step(l: Layout, st0: State, ids: Seq<int>, t: int, st: State)
    requires
        l.wf(),
        inv(l, st0),
        st0.cov.len() == 0,
        ids_ok(l, ids),
        0 <= t < ids.len(),
        grown(l, st0, ids, t, st),
        l.size() + ids.len() + 1 <= isize::MAX,
    ensures
        1 <= ids[t] <= l.count,
        st.nodes[ids[t]].up == st0.nodes[ids[t]].up,
        st.nodes[ids[t]].up < l.size(),
        st.items[ids[t]].length <= l.size(),
        st.items[ids[t]].length == st0.items[ids[t]].length,
        grown(l, st0, ids, t + 1, grow_one(st, ids[t])),
{
    let n0 = l.size();
    let i = ids[t];
    let u = st0.nodes[i].up as int;
    let s2 = grow_one(st, i);
    lemma_pos(ids, i);
    assert(in_list(l, st0, i));
    assert(ring_ok(l, st0, i));
    assert(st.nodes[i].up == new_up(l, st0, ids, t, i));
    assert(st0.items[i].length == col_cells(l, st0, i, l.size()).len());
    lemma_col_cells_bound(l, st0, i, l.size());
    assert(st.items[i] == st0.items[i]);
    assert forall|j: int| 0 <= j < s2.items.len() implies #[trigger] s2.items[j] == (if 0 <= pos(
        ids,
        j,
    ) < t + 1 {
        Record { length: (st0.items[j].length + 1) as usize, ..st0.items[j] }
    } else {
        st0.items[j]
    }) by {
        lemma_pos(ids, j);
        assert(st.items[j] == (if 0 <= pos(ids, j) < t {
            Record { length: (st0.items[j].length + 1) as usize, ..st0.items[j] }
        } else {
            st0.items[j]
        }));
    }
    assert forall|x: int| n0 <= x < n0 + t + 1 implies #[trigger] s2.nodes[x] == (Node {
        top: ids[x - n0] as isize,
        up: st0.nodes[ids[x - n0]].up,
        down: ids[x - n0] as usize,
    }) by {
        if x < n0 + t {
            assert(st.nodes[x] == (Node {
                top: ids[x - n0] as isize,
                up: st0.nodes[ids[x - n0]].up,
                down: ids[x - n0] as usize,
            }));
        }
    }
    assert forall|x: int| 0 <= x < n0 implies #[trigger] s2.nodes[x] == (Node {
        top: st0.nodes[x].top,
        up: new_up(l, st0, ids, t + 1, x),
        down: new_down(l, st0, ids, t + 1, x),
    }) by {
        assert(st.nodes[x] == (Node {
            top: st0.nodes[x].top,
            up: new_up(l, st0, ids, t, x),
            down: new_down(l, st0, ids, t, x),
        }));
        lemma_pos(ids, x);
        lemma_pos(ids, l.col(x));
        if in_list(l, st0, x) {
            assert(ring_ok(l, st0, x));
            if l.is_cell(x) {
                lemma_cell_facts(l, x);
            }
        }
        if x == u {
            assert(ring_ok(l, st0, u));
        }
    }
}

/// The spacer in place: the option is appended.
pub proof fn lemma_grow_close(l: Layout, st0: State, ids: Seq<int>, st: State)
    requires
        l.wf(),
        inv(l, st0),
        st0.cov.len() == 0,
        ids_ok(l, ids),
        grown(l, st0, ids, ids.len() as int, st),
        st.linked == st0.linked,
        l.size() + ids.len() + 1 <= isize::MAX,
    ensures
        appended(l, st0, ids, close_one(st, l.size())),
        st.nodes[l.size() - 1].top == -(l.options.len() as int),
        l.options.len() < l.size(),
{
    reveal(appended);
    let n0 = l.size();
    let k = ids.len() as int;
    let s2 = close_one(st, n0);
    lemma_options_bounded(l);
    assert(!in_list(l, st0, n0 - 1));
    assert(st.nodes[n0 - 1] == st0.nodes[n0 - 1]);
    assert(st0.nodes[n0 - 1].top == l.top(n0 - 1));
    assert forall|j: int| 0 <= j < s2.items.len() implies #[trigger] s2.items[j] == (if 0 <= pos(
        ids,
        j,
    ) {
        Record { length: (st0.items[j].length + 1) as usize, ..st0.items[j] }
    } else {
        st0.items[j]
    }) by {
        lemma_pos(ids, j);
    }
    assert forall|x: int| n0 <= x < n0 + k implies #[trigger] s2.nodes[x] == (Node {
        top: ids[x - n0] as isize,
        up: st0.nodes[ids[x - n0]].up,
        down: ids[x - n0] as usize,
    }) by {
        assert(s2.nodes[x] == st.nodes[x]);
    }
    assert forall|x: int| 0 <= x < n0 - 1 implies #[trigger] s2.nodes[x] == (Node {
        top: st0.nodes[x].top,
        up: new_up(l, st0, ids, k, x),
        down: new_down(l, st0, ids, k, x),
    }) by {
        assert(s2.nodes[x] == st.nodes[x]);
    }
}

} // verus!
