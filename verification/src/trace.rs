use crate::exact::{covers, has_primary, is_cover, met};
use crate::model::{
    lemma_block, lemma_cell_facts, lemma_item_cell, lemma_live_items, lemma_one_cell_per_item,
    lemma_others_member, live, Layout,
};
use vstd::prelude::*;

verus! {

/// One level of the search: the item that was chosen to be covered next,
/// and the cell of that item's column whose option is being tried.
pub struct Frame {
    pub item: int,
    pub row: int,
}

/// The items of the given cells.
pub open spec fn tops(l: Layout, cells: Seq<int>) -> Seq<int> {
    Seq::new(cells.len(), |t: int| l.top(cells[t]))
}

/// The items of the option of cell `x`, in the order in which trying that
/// option covers them: the item of `x` first, then the others to its right,
/// wrapping at the end of the option.
pub open spec fn cyc(l: Layout, x: int) -> Seq<int> {
    seq![l.top(x)] + tops(l, l.others(x))
}

/// The items covered by the options tried on the levels of `frames`.
pub open spec fn flat(l: Layout, frames: Seq<Frame>) -> Seq<int>
    decreases frames.len(),
{
    if frames.len() == 0 {
        Seq::empty()
    } else {
        flat(l, frames.drop_last()) + cyc(l, frames.last().row)
    }
}

/// The option tried on level `lv`.
pub open spec fn tried(l: Layout, frames: Seq<Frame>, lv: int) -> int {
    l.rows[frames[lv].row]
}

/// Every level tries a cell of the column of its item, a primary one.
pub open spec fn cells_ok(l: Layout, frames: Seq<Frame>) -> bool {
    forall|lv: int|
        0 <= lv < frames.len() ==> {
            &&& l.is_cell((#[trigger] frames[lv]).row)
            &&& l.top(frames[lv].row) == frames[lv].item
            &&& 1 <= frames[lv].item <= l.primary
        }
}

/// Every level tries an option that names no item covered on the levels
/// above it.
pub open spec fn path_ok(l: Layout, frames: Seq<Frame>) -> bool {
    &&& cells_ok(l, frames)
    &&& forall|lv: int|
        0 <= lv < frames.len() ==> live(
            l,
            flat(l, frames.take(lv)),
            #[trigger] tried(l, frames, lv),
        )
}

/// The options tried on all levels, as a selection.
pub open spec fn chosen(l: Layout, frames: Seq<Frame>) -> Set<int> {
    Set::new(
        |o: int| exists|lv: int| 0 <= lv < frames.len() && #[trigger] tried(l, frames, lv) == o,
    )
}

/// The selection `s` holds the options tried on the first `lv` levels.
pub open spec fn agrees(l: Layout, frames: Seq<Frame>, s: Set<int>, lv: int) -> bool {
    forall|k: int| 0 <= k < lv ==> s.contains(#[trigger] tried(l, frames, k))
}

/// The cell through which the selection `s` covers item `i`.
pub open spec fn pick(l: Layout, s: Set<int>, i: int) -> int {
    choose|x: int| l.is_cell(x) && l.top(x) == i && s.contains(#[trigger] l.rows[x])
}

/// On level `lv` the selection `s` goes with the search down to that
/// level and then takes an option that the search has left behind.
pub open spec fn passed(l: Layout, frames: Seq<Frame>, s: Set<int>, lv: int) -> bool {
    agrees(l, frames, s, lv) && pick(l, s, frames[lv].item) < frames[lv].row
}

/// The search has been through the part of the tree in which `s` lies.
pub open spec fn behind(l: Layout, frames: Seq<Frame>, done: bool, s: Set<int>) -> bool {
    ||| exists|lv: int| 0 <= lv < frames.len() && #[trigger] passed(l, frames, s, lv)
    ||| done && agrees(l, frames, s, frames.len() as int)
}

/// The same while item `i` is covered below the last level and the cells
/// of its column before `x` have been tried.
pub open spec fn behind_mid(l: Layout, frames: Seq<Frame>, i: int, x: int, s: Set<int>) -> bool {
    ||| behind(l, frames, false, s)
    ||| agrees(l, frames, s, frames.len() as int) && pick(l, s, i) < x
}

/// `found` lists, each once, the exact covers that the search has been
/// through.
pub open spec fn found_at(l: Layout, frames: Seq<Frame>, done: bool, found: Seq<Set<int>>) -> bool {
    &&& found.no_duplicates()
    &&& forall|k: int| 0 <= k < found.len() ==> is_cover(l.primary, l.options, #[trigger] found[k])
    &&& forall|s: Set<int>|
        is_cover(l.primary, l.options, s) ==> (found.contains(s) <==> #[trigger] behind(
            l,
            frames,
            done,
            s,
        ))
}

/// The same in the middle of a level.
pub open spec fn found_mid(
    l: Layout,
    frames: Seq<Frame>,
    i: int,
    x: int,
    found: Seq<Set<int>>,
) -> bool {
    &&& found.no_duplicates()
    &&& forall|k: int| 0 <= k < found.len() ==> is_cover(l.primary, l.options, #[trigger] found[k])
    &&& forall|s: Set<int>|
        is_cover(l.primary, l.options, s) ==> (found.contains(s) <==> #[trigger] behind_mid(
            l,
            frames,
            i,
            x,
            s,
        ))
}

/// No option that is still free has a cell of column `i` strictly between
/// `a` and `b`.
pub open spec fn free_gap(l: Layout, cov: Seq<int>, i: int, a: int, b: int) -> bool {
    forall|z: int|
        a < z < b && l.is_cell(z) && l.top(z) == i ==> !live(l, cov, #[trigger] l.rows[z])
}

/// The items covered when an option is tried are the items of the
/// option, the one of the cell tried first.
pub proof fn lemma_cyc_members(l: Layout, x: int, t: int)
    requires
        l.wf(),
        l.is_cell(x),
    ensures
        cyc(l, x).contains(t) <==> l.options[l.rows[x]].contains(t),
        cyc(l, x).len() == l.options[l.rows[x]].len(),
        cyc(l, x)[0] == l.top(x),
{
    let o = l.rows[x];
    let c = cyc(l, x);
    let oth = l.others(x);
    lemma_cell_facts(l, x);
    lemma_others_member(l, x, 0);
    if c.contains(t) {
        let k = choose|k: int| 0 <= k < c.len() && c[k] == t;
        let y = if k == 0 {
            x
        } else {
            oth[k - 1]
        };
        if k > 0 {
            assert(oth.contains(y));
            lemma_others_member(l, x, y);
            lemma_block(l, x, y);
        }
        assert(l.top(y) == t);
        assert(l.options[o][y - l.starts[o]] == t);
    }
    if l.options[o].contains(t) {
        let k = choose|k: int| 0 <= k < l.options[o].len() && l.options[o][k] == t;
        let y = l.at(o, k);
        assert(l.rows[y] == o);
        assert(l.top(y) == t);
        if y == x {
            assert(c[0] == t);
        } else {
            lemma_others_member(l, x, y);
            let w = choose|w: int| 0 <= w < oth.len() && oth[w] == y;
            assert(c[w + 1] == t);
        }
    }
}

/// The items covered on a path are the items of the options tried.
pub proof fn lemma_flat_members(l: Layout, frames: Seq<Frame>, t: int)
    requires
        l.wf(),
        cells_ok(l, frames),
    ensures
        flat(l, frames).contains(t) <==> exists|lv: int|
            0 <= lv < frames.len() && l.options[#[trigger] tried(l, frames, lv)].contains(t),
    decreases frames.len(),
{
    if frames.len() > 0 {
        let front = frames.drop_last();
        let x = frames.last().row;
        assert(cells_ok(l, front)) by {
            assert forall|lv: int| 0 <= lv < front.len() implies {
                &&& l.is_cell((#[trigger] front[lv]).row)
                &&& l.top(front[lv].row) == front[lv].item
                &&& 1 <= front[lv].item <= l.primary
            } by {
                assert(front[lv] == frames[lv]);
            }
        }
        lemma_flat_members(l, front, t);
        assert(frames[frames.len() - 1] == frames.last());
        lemma_cyc_members(l, x, t);
        let a = flat(l, front);
        let b = cyc(l, x);
        if (a + b).contains(t) {
            let k = choose|k: int| 0 <= k < (a + b).len() && (a + b)[k] == t;
            if k < a.len() {
                assert(a[k] == t);
                assert(a.contains(t));
                let lv = choose|lv: int|
                    0 <= lv < front.len() && l.options[#[trigger] tried(l, front, lv)].contains(t);
                assert(tried(l, frames, lv) == tried(l, front, lv));
            } else {
                assert(b[k - a.len()] == t);
                assert(b.contains(t));
                assert(tried(l, frames, frames.len() - 1) == l.rows[x]);
            }
        }
        if exists|lv: int|
            0 <= lv < frames.len() && l.options[#[trigger] tried(l, frames, lv)].contains(t) {
            let lv = choose|lv: int|
                0 <= lv < frames.len() && l.options[#[trigger] tried(l, frames, lv)].contains(t);
            if lv < front.len() {
                assert(tried(l, frames, lv) == tried(l, front, lv));
                assert(a.contains(t));
                let k = choose|k: int| 0 <= k < a.len() && a[k] == t;
                assert((a + b)[k] == t);
            } else {
                assert(b.contains(t));
                let k = choose|k: int| 0 <= k < b.len() && b[k] == t;
                assert((a + b)[a.len() + k] == t);
            }
        }
    }
}

/// An exact cover covers each primary item through exactly one cell.
pub proof fn lemma_pick(l: Layout, s: Set<int>, i: int)
    requires
        l.wf(),
        is_cover(l.primary, l.options, s),
        1 <= i <= l.primary,
    ensures
        l.is_cell(pick(l, s, i)),
        l.top(pick(l, s, i)) == i,
        s.contains(l.rows[pick(l, s, i)]),
        forall|y: int|
            l.is_cell(y) && l.top(y) == i && s.contains(#[trigger] l.rows[y]) ==> y == pick(
                l,
                s,
                i,
            ),
{
    assert(met(l.options, s, i));
    let o = choose|o: int| #[trigger] covers(l.options, s, o, i);
    lemma_item_cell(l, o, i);
    let x0 = choose|x: int| l.is_cell(x) && #[trigger] l.rows[x] == o && l.top(x) == i;
    assert(l.is_cell(x0) && l.top(x0) == i && s.contains(l.rows[x0]));
    let x = pick(l, s, i);
    assert forall|y: int|
        l.is_cell(y) && l.top(y) == i && s.contains(#[trigger] l.rows[y]) implies y == x by {
        lemma_cell_facts(l, y);
        lemma_cell_facts(l, x);
        lemma_item_cell(l, l.rows[y], i);
        lemma_item_cell(l, l.rows[x], i);
        assert(covers(l.options, s, l.rows[y], i));
        assert(covers(l.options, s, l.rows[x], i));
        lemma_one_cell_per_item(l, x, y);
    }
}

/// An exact cover that holds the options tried so far covers an item that
/// is still uncovered through an option that is still free.
pub proof fn lemma_pick_live(l: Layout, frames: Seq<Frame>, s: Set<int>, i: int)
    requires
        l.wf(),
        cells_ok(l, frames),
        is_cover(l.primary, l.options, s),
        agrees(l, frames, s, frames.len() as int),
        1 <= i <= l.primary,
        !flat(l, frames).contains(i),
    ensures
        live(l, flat(l, frames), l.rows[pick(l, s, i)]),
{
    let x = pick(l, s, i);
    let o = l.rows[x];
    lemma_pick(l, s, i);
    lemma_cell_facts(l, x);
    lemma_item_cell(l, o, i);
    lemma_live_items(l, flat(l, frames), o);
    assert forall|t: int| #[trigger] flat(l, frames).contains(t) implies !l.options[o].contains(
        t,
    ) by {
        if l.options[o].contains(t) {
            lemma_flat_members(l, frames, t);
            let lv = choose|lv: int|
                0 <= lv < frames.len() && l.options[#[trigger] tried(l, frames, lv)].contains(t);
            let p = tried(l, frames, lv);
            lemma_cell_facts(l, frames[lv].row);
            assert(s.contains(p));
            assert(covers(l.options, s, p, t));
            assert(covers(l.options, s, o, t));
            lemma_flat_members(l, frames, i);
        }
    }
}

/// What one more level changes in the bookkeeping of the levels above.
pub proof fn lemma_push_level(l: Layout, frames: Seq<Frame>, f: Frame, s: Set<int>)
    ensures
        forall|lv: int|
            0 <= lv <= frames.len() ==> #[trigger] agrees(l, frames.push(f), s, lv) == agrees(
                l,
                frames,
                s,
                lv,
            ),
        forall|lv: int|
            0 <= lv < frames.len() ==> #[trigger] passed(l, frames.push(f), s, lv) == passed(
                l,
                frames,
                s,
                lv,
            ),
        agrees(l, frames.push(f), s, frames.len() as int + 1) == (agrees(
            l,
            frames,
            s,
            frames.len() as int,
        )
            && s.contains(l.rows[f.row])),
        passed(l, frames.push(f), s, frames.len() as int) == (agrees(
            l,
            frames,
            s,
            frames.len() as int,
        ) && pick(l, s, f.item) < f.row),
{
    let g = frames.push(f);
    assert forall|lv: int| 0 <= lv <= frames.len() implies #[trigger] agrees(l, g, s, lv)
        == agrees(l, frames, s, lv) by {
        if agrees(l, frames, s, lv) {
            assert forall|k: int| 0 <= k < lv implies s.contains(#[trigger] tried(l, g, k)) by {
                assert(tried(l, g, k) == tried(l, frames, k));
            }
        }
        if agrees(l, g, s, lv) {
            assert forall|k: int| 0 <= k < lv implies s.contains(
                #[trigger] tried(l, frames, k),
            ) by {
                assert(tried(l, g, k) == tried(l, frames, k));
            }
        }
    }
    assert forall|lv: int| 0 <= lv < frames.len() implies #[trigger] passed(l, g, s, lv) == passed(
        l,
        frames,
        s,
        lv,
    ) by {
        assert(g[lv] == frames[lv]);
        assert(agrees(l, g, s, lv) == agrees(l, frames, s, lv));
    }
    let n = frames.len() as int;
    assert(g[n] == f);
    assert(tried(l, g, n) == l.rows[f.row]);
    assert(agrees(l, g, s, n) == agrees(l, frames, s, n));
    if agrees(l, g, s, n + 1) {
        assert(s.contains(tried(l, g, n)));
    }
    if agrees(l, frames, s, n) && s.contains(l.rows[f.row]) {
        assert forall|k: int| 0 <= k < n + 1 implies s.contains(#[trigger] tried(l, g, k)) by {
            if k < n {
                assert(tried(l, g, k) == tried(l, frames, k));
            }
        }
    }
}

/// Being behind with one more level, spelled out over the levels above.
pub proof fn lemma_behind_push(l: Layout, frames: Seq<Frame>, f: Frame, done: bool, s: Set<int>)
    ensures
        behind(l, frames.push(f), done, s) <==> {
            ||| behind(l, frames, false, s)
            ||| agrees(l, frames, s, frames.len() as int) && pick(l, s, f.item) < f.row
            ||| done && agrees(l, frames, s, frames.len() as int) && s.contains(l.rows[f.row])
        },
{
    let g = frames.push(f);
    let n = frames.len() as int;
    lemma_push_level(l, frames, f, s);
    if exists|lv: int| 0 <= lv < g.len() && #[trigger] passed(l, g, s, lv) {
        let lv = choose|lv: int| 0 <= lv < g.len() && #[trigger] passed(l, g, s, lv);
        if lv < n {
            assert(passed(l, frames, s, lv));
        }
    }
    if behind(l, frames, false, s) {
        let lv = choose|lv: int| 0 <= lv < frames.len() && #[trigger] passed(l, frames, s, lv);
        assert(passed(l, g, s, lv));
    }
    if agrees(l, frames, s, n) && pick(l, s, f.item) < f.row {
        assert(passed(l, g, s, n));
    }
}

/// Stepping down a level keeps the list of covers in step with the search.
pub proof fn lemma_found_descend(
    l: Layout,
    frames: Seq<Frame>,
    i: int,
    x: int,
    found: Seq<Set<int>>,
)
    requires
        found_mid(l, frames, i, x, found),
    ensures
        found_at(l, frames.push(Frame { item: i, row: x }), false, found),
{
    let f = Frame { item: i, row: x };
    assert forall|s: Set<int>| is_cover(l.primary, l.options, s) implies (found.contains(s)
        <==> #[trigger] behind(l, frames.push(f), false, s)) by {
        lemma_behind_push(l, frames, f, false, s);
        assert(found.contains(s) <==> behind_mid(l, frames, i, x, s));
    }
}

/// When the column of the chosen item is used up, the search is through
/// with the level.
pub proof fn lemma_found_exhaust(l: Layout, frames: Seq<Frame>, i: int, found: Seq<Set<int>>)
    requires
        l.wf(),
        1 <= i <= l.primary,
        found_mid(l, frames, i, l.size(), found),
    ensures
        found_at(l, frames, true, found),
{
    assert forall|s: Set<int>| is_cover(l.primary, l.options, s) implies (found.contains(s)
        <==> #[trigger] behind(l, frames, true, s)) by {
        lemma_pick(l, s, i);
        assert(found.contains(s) <==> behind_mid(l, frames, i, l.size(), s));
    }
}

/// When an item is chosen on a new level, no exact cover that goes with
/// the search so far covers it through a cell before the first free one.
pub proof fn lemma_found_forward(
    l: Layout,
    frames: Seq<Frame>,
    i: int,
    x: int,
    found: Seq<Set<int>>,
)
    requires
        l.wf(),
        cells_ok(l, frames),
        1 <= i <= l.primary,
        !flat(l, frames).contains(i),
        free_gap(l, flat(l, frames), i, -1, x),
        found_at(l, frames, false, found),
    ensures
        found_mid(l, frames, i, x, found),
{
    assert forall|s: Set<int>| is_cover(l.primary, l.options, s) implies (found.contains(s)
        <==> #[trigger] behind_mid(l, frames, i, x, s)) by {
        assert(found.contains(s) <==> behind(l, frames, false, s));
        if agrees(l, frames, s, frames.len() as int) {
            lemma_pick(l, s, i);
            lemma_pick_live(l, frames, s, i);
            let p = pick(l, s, i);
            if p < x {
                assert(!live(l, flat(l, frames), l.rows[p]));
            }
        }
    }
}

/// When the search comes back to a level and moves on to the next free
/// cell of the column, the options it leaves are through.
pub proof fn lemma_found_retreat(
    l: Layout,
    frames: Seq<Frame>,
    f: Frame,
    x2: int,
    found: Seq<Set<int>>,
)
    requires
        l.wf(),
        cells_ok(l, frames.push(f)),
        !flat(l, frames).contains(f.item),
        free_gap(l, flat(l, frames), f.item, f.row, x2),
        f.row < x2,
        found_at(l, frames.push(f), true, found),
    ensures
        found_mid(l, frames, f.item, x2, found),
{
    let g = frames.push(f);
    let n = frames.len() as int;
    assert(g[n] == f);
    assert(cells_ok(l, frames)) by {
        assert forall|lv: int| 0 <= lv < frames.len() implies {
            &&& l.is_cell((#[trigger] frames[lv]).row)
            &&& l.top(frames[lv].row) == frames[lv].item
            &&& 1 <= frames[lv].item <= l.primary
        } by {
            assert(frames[lv] == g[lv]);
        }
    }
    assert forall|s: Set<int>| is_cover(l.primary, l.options, s) implies (found.contains(s)
        <==> #[trigger] behind_mid(l, frames, f.item, x2, s)) by {
        assert(found.contains(s) <==> behind(l, g, true, s));
        lemma_behind_push(l, frames, f, true, s);
        if agrees(l, frames, s, n) {
            lemma_pick(l, s, f.item);
            lemma_pick_live(l, frames, s, f.item);
            let p = pick(l, s, f.item);
            if f.row < p < x2 {
                assert(!live(l, flat(l, frames), l.rows[p]));
            }
        }
    }
}

/// When nothing was tried, the exact covers that the search is through
/// with are all there are.
pub proof fn lemma_found_all(l: Layout, found: Seq<Set<int>>)
    requires
        found_at(l, Seq::empty(), true, found),
    ensures
        forall|s: Set<int>| found.contains(s) <==> is_cover(l.primary, l.options, s),
{
    assert forall|s: Set<int>| found.contains(s) <==> is_cover(l.primary, l.options, s) by {
        if found.contains(s) {
            let k = choose|k: int| 0 <= k < found.len() && found[k] == s;
            assert(is_cover(l.primary, l.options, found[k]));
        }
        if is_cover(l.primary, l.options, s) {
            assert(agrees(l, Seq::<Frame>::empty(), s, 0));
            assert(behind(l, Seq::<Frame>::empty(), true, s));
        }
    }
}

/// Before anything was tried the search is through with nothing.
pub proof fn lemma_found_none(l: Layout)
    ensures
        found_at(l, Seq::empty(), false, Seq::empty()),
{
}

/// When every primary item is covered, the options tried form an exact
/// cover that the search has not been through before, and no other exact
/// cover holds them all.
pub proof fn lemma_found_record(l: Layout, frames: Seq<Frame>, found: Seq<Set<int>>)
    requires
        l.wf(),
        path_ok(l, frames),
        forall|j: int| 1 <= j <= l.primary ==> #[trigger] flat(l, frames).contains(j),
        found_at(l, frames, false, found),
    ensures
        is_cover(l.primary, l.options, chosen(l, frames)),
        !found.contains(chosen(l, frames)),
        found_at(l, frames, true, found.push(chosen(l, frames))),
{
    let c = chosen(l, frames);
    let n = frames.len() as int;
    lemma_chosen_cover(l, frames);
    assert(!behind(l, frames, false, c)) by {
        if behind(l, frames, false, c) {
            let lv = choose|lv: int| 0 <= lv < frames.len() && #[trigger] passed(l, frames, c, lv);
            lemma_pick(l, c, frames[lv].item);
            assert(c.contains(tried(l, frames, lv)));
        }
    }
    let g = found.push(c);
    assert(g.no_duplicates()) by {
        assert forall|a: int, b: int| 0 <= a < g.len() && 0 <= b < g.len() && a != b implies g[a]
            != g[b] by {
            if a < found.len() {
                assert(found.contains(g[a]));
            }
            if b < found.len() {
                assert(found.contains(g[b]));
            }
        }
    }
    assert forall|k: int| 0 <= k < g.len() implies is_cover(
        l.primary,
        l.options,
        #[trigger] g[k],
    ) by {
        if k < found.len() {
            assert(g[k] == found[k]);
        }
    }
    assert forall|s: Set<int>| is_cover(l.primary, l.options, s) implies (g.contains(s)
        <==> #[trigger] behind(l, frames, true, s)) by {
        assert(found.contains(s) <==> behind(l, frames, false, s));
        if found.contains(s) {
            let k = choose|k: int| 0 <= k < found.len() && found[k] == s;
            assert(g[k] == s);
        }
        if g.contains(s) {
            let k = choose|k: int| 0 <= k < g.len() && g[k] == s;
            if k < found.len() {
                assert(found[k] == s);
            }
        }
        assert(agrees(l, frames, c, n)) by {
            assert forall|k: int| 0 <= k < n implies c.contains(
                #[trigger] tried(l, frames, k),
            ) by {}
        }
        assert(g[found.len() as int] == c);
        if agrees(l, frames, s, n) {
            lemma_agrees_all(l, frames, s);
        }
    }
}

/// The options tried on a sound path that covers every primary item form
/// an exact cover.
pub proof fn lemma_chosen_cover(l: Layout, frames: Seq<Frame>)
    requires
        l.wf(),
        path_ok(l, frames),
        forall|j: int| 1 <= j <= l.primary ==> #[trigger] flat(l, frames).contains(j),
    ensures
        is_cover(l.primary, l.options, chosen(l, frames)),
{
    let c = chosen(l, frames);
    assert forall|o: int| #[trigger] c.contains(o) implies 0 <= o < l.options.len()
        && has_primary(l.primary, l.options[o]) by {
        let lv = choose|lv: int| 0 <= lv < frames.len() && #[trigger] tried(l, frames, lv) == o;
        let x = frames[lv].row;
        lemma_cell_facts(l, x);
        assert(l.options[o][x - l.starts[o]] == frames[lv].item);
    }
    assert forall|j: int| 1 <= j <= l.primary implies #[trigger] met(l.options, c, j) by {
        assert(flat(l, frames).contains(j));
        lemma_flat_members(l, frames, j);
        let lv = choose|lv: int|
            0 <= lv < frames.len() && l.options[#[trigger] tried(l, frames, lv)].contains(j);
        lemma_cell_facts(l, frames[lv].row);
        assert(c.contains(tried(l, frames, lv)));
        assert(covers(l.options, c, tried(l, frames, lv), j));
    }
    assert forall|j: int, a: int, b: int|
        #[trigger] covers(l.options, c, a, j) && #[trigger] covers(l.options, c, b, j) implies a
        == b by {
        let la = choose|lv: int| 0 <= lv < frames.len() && #[trigger] tried(l, frames, lv) == a;
        let lb = choose|lv: int| 0 <= lv < frames.len() && #[trigger] tried(l, frames, lv) == b;
        if la < lb {
            lemma_levels_apart(l, frames, la, lb, j);
        } else if lb < la {
            lemma_levels_apart(l, frames, lb, la, j);
        }
    }
}

/// Options tried on different levels of a sound path share no item.
pub proof fn lemma_levels_apart(l: Layout, frames: Seq<Frame>, la: int, lb: int, j: int)
    requires
        l.wf(),
        path_ok(l, frames),
        0 <= la < lb < frames.len(),
    ensures
        !(l.options[tried(l, frames, la)].contains(j) && l.options[tried(l, frames, lb)].contains(
            j,
        )),
{
    let front = frames.take(lb);
    let b = tried(l, frames, lb);
    assert(live(l, flat(l, front), b));
    lemma_live_items(l, flat(l, front), b);
    assert(cells_ok(l, front)) by {
        assert forall|lv: int| 0 <= lv < front.len() implies {
            &&& l.is_cell((#[trigger] front[lv]).row)
            &&& l.top(front[lv].row) == front[lv].item
            &&& 1 <= front[lv].item <= l.primary
        } by {
            assert(front[lv] == frames[lv]);
        }
    }
    if l.options[tried(l, frames, la)].contains(j) {
        lemma_flat_members(l, front, j);
        assert(tried(l, front, la) == tried(l, frames, la));
        assert(flat(l, front).contains(j));
    }
}

/// An exact cover that holds every option of a path that covers all
/// primary items holds nothing else.
pub proof fn lemma_agrees_all(l: Layout, frames: Seq<Frame>, s: Set<int>)
    requires
        l.wf(),
        path_ok(l, frames),
        forall|j: int| 1 <= j <= l.primary ==> #[trigger] flat(l, frames).contains(j),
        is_cover(l.primary, l.options, s),
        agrees(l, frames, s, frames.len() as int),
    ensures
        s == chosen(l, frames),
{
    let c = chosen(l, frames);
    assert forall|o: int| s.contains(o) == c.contains(o) by {
        if c.contains(o) {
            let lv = choose|lv: int| 0 <= lv < frames.len() && #[trigger] tried(l, frames, lv) == o;
            assert(s.contains(tried(l, frames, lv)));
        }
        if s.contains(o) {
            assert(has_primary(l.primary, l.options[o]));
            let k = choose|k: int|
                0 <= k < l.options[o].len() && 1 <= #[trigger] l.options[o][k] <= l.primary;
            let j = l.options[o][k];
            assert(l.options[o].contains(j));
            assert(flat(l, frames).contains(j));
            lemma_flat_members(l, frames, j);
            let lv = choose|lv: int|
                0 <= lv < frames.len() && l.options[#[trigger] tried(l, frames, lv)].contains(j);
            lemma_cell_facts(l, frames[lv].row);
            assert(s.contains(tried(l, frames, lv)));
            assert(covers(l.options, s, o, j));
            assert(covers(l.options, s, tried(l, frames, lv), j));
        }
    }
    assert(s =~= c);
}

/// `b` to the power of `e`.
pub open spec fn weight(b: int, e: nat) -> int
    decreases e,
{
    if e == 0 {
        1
    } else {
        b * weight(b, (e - 1) as nat)
    }
}

/// What the levels of `frames` can still cost: for each level, the cells
/// that may follow the one tried, each worth a whole subtree.
pub open spec fn stack_cost(frames: Seq<Frame>, b: int, d: int) -> int
    decreases frames.len(),
{
    if frames.len() == 0 {
        0
    } else {
        stack_cost(frames.drop_last(), b, d) + (b - 1 - frames.last().row) * weight(
            b,
            (d - (frames.len() - 1)) as nat,
        )
    }
}

/// A bound on the steps that the search can still take, with `b - 1`
/// positions in the arena and no more than `d` levels.
pub open spec fn remaining(frames: Seq<Frame>, done: bool, b: int, d: int) -> int {
    stack_cost(frames, b, d) + (if done {
        0
    } else {
        b - 1
    }) * weight(b, (d - frames.len()) as nat) + weight(b, (d - frames.len()) as nat) - 1
}

/// Every tried cell lies in the arena.
pub open spec fn rows_in(frames: Seq<Frame>, b: int) -> bool {
    forall|lv: int| 0 <= lv < frames.len() ==> 1 <= (#[trigger] frames[lv]).row <= b - 2
}

/// A power of a positive number is positive.
pub proof fn lemma_weight_positive(b: int, e: nat)
    requires
        b >= 1,
    ensures
        weight(b, e) >= 1,
    decreases e,
{
    if e > 0 {
        lemma_weight_positive(b, (e - 1) as nat);
        let w = weight(b, (e - 1) as nat);
        assert(b * w >= 1) by (nonlinear_arith)
            requires
                b >= 1,
                w >= 1,
        ;
    }
}

/// What the levels can still cost is never negative.
pub proof fn lemma_stack_cost_positive(frames: Seq<Frame>, b: int, d: int)
    requires
        b >= 2,
        rows_in(frames, b),
    ensures
        stack_cost(frames, b, d) >= 0,
    decreases frames.len(),
{
    if frames.len() > 0 {
        let front = frames.drop_last();
        assert(rows_in(front, b)) by {
            assert forall|lv: int| 0 <= lv < front.len() implies 1 <= (#[trigger] front[lv]).row
                <= b - 2 by {
                assert(front[lv] == frames[lv]);
            }
        }
        lemma_stack_cost_positive(front, b, d);
        let w = weight(b, (d - (frames.len() - 1)) as nat);
        lemma_weight_positive(b, (d - (frames.len() - 1)) as nat);
        let r = b - 1 - frames.last().row;
        assert(frames[frames.len() - 1] == frames.last());
        assert(r * w >= 0) by (nonlinear_arith)
            requires
                r >= 0,
                w >= 1,
        ;
    }
}

/// The bound is never negative.
pub proof fn lemma_remaining_positive(frames: Seq<Frame>, done: bool, b: int, d: int)
    requires
        b >= 2,
        rows_in(frames, b),
    ensures
        remaining(frames, done, b, d) >= 0,
{
    lemma_stack_cost_positive(frames, b, d);
    lemma_weight_positive(b, (d - frames.len()) as nat);
    let w = weight(b, (d - frames.len()) as nat);
    let m = if done {
        0
    } else {
        b - 1
    };
    assert(m * w >= 0) by (nonlinear_arith)
        requires
            m >= 0,
            w >= 1,
    ;
}

/// Stepping down a level lowers the bound.
pub proof fn lemma_remaining_descend(frames: Seq<Frame>, f: Frame, b: int, d: int)
    requires
        b >= 2,
        frames.len() < d,
        1 <= f.row <= b - 2,
    ensures
        remaining(frames.push(f), false, b, d) < remaining(frames, false, b, d),
{
    let n = frames.len() as int;
    let g = frames.push(f);
    assert(g.drop_last() =~= frames);
    assert(g.last() == f);
    let w0 = weight(b, (d - n) as nat);
    let w1 = weight(b, (d - n - 1) as nat);
    lemma_weight_positive(b, (d - n - 1) as nat);
    assert(w0 == b * w1);
    let s = stack_cost(frames, b, d);
    let x = f.row;
    assert(stack_cost(g, b, d) == s + (b - 1 - x) * w0);
    assert(s + (b - 1 - x) * w0 + (b - 1) * w1 + w1 - 1 < s + (b - 1) * w0 + w0 - 1)
        by (nonlinear_arith)
        requires
            w0 == b * w1,
            w1 >= 1,
            x >= 1,
            b >= 2,
    ;
}

/// Giving up a level without going down lowers the bound.
pub proof fn lemma_remaining_exhaust(frames: Seq<Frame>, b: int, d: int)
    requires
        b >= 2,
    ensures
        remaining(frames, true, b, d) < remaining(frames, false, b, d),
{
    let w = weight(b, (d - frames.len()) as nat);
    lemma_weight_positive(b, (d - frames.len()) as nat);
    assert(0 * w < (b - 1) * w) by (nonlinear_arith)
        requires
            w >= 1,
            b >= 2,
    ;
}

/// Moving on to a later cell of the same column lowers the bound, whatever
/// became of the level below.
pub proof fn lemma_remaining_advance(
    frames: Seq<Frame>,
    f: Frame,
    g: Frame,
    done: bool,
    b: int,
    d: int,
)
    requires
        b >= 2,
        frames.len() < d,
        1 <= f.row < g.row <= b - 2,
    ensures
        remaining(frames.push(g), false, b, d) < remaining(frames.push(f), done, b, d),
{
    let n = frames.len() as int;
    assert(frames.push(f).drop_last() =~= frames);
    assert(frames.push(g).drop_last() =~= frames);
    assert(frames.push(f).last() == f);
    assert(frames.push(g).last() == g);
    let w0 = weight(b, (d - n) as nat);
    let w1 = weight(b, (d - n - 1) as nat);
    lemma_weight_positive(b, (d - n - 1) as nat);
    assert(w0 == b * w1);
    let s = stack_cost(frames, b, d);
    let m = if done {
        0
    } else {
        b - 1
    };
    let xf = f.row;
    let xg = g.row;
    assert(s + (b - 1 - xg) * w0 + (b - 1) * w1 + w1 - 1 < s + (b - 1 - xf) * w0 + m * w1 + w1 - 1)
        by (nonlinear_arith)
        requires
            w0 == b * w1,
            w1 >= 1,
            xf < xg,
            m >= 0,
            b >= 2,
    ;
}

/// Leaving a level for good lowers the bound, whatever became of the level
/// below.
pub proof fn lemma_remaining_leave(frames: Seq<Frame>, f: Frame, done: bool, b: int, d: int)
    requires
        b >= 2,
        frames.len() < d,
        1 <= f.row <= b - 2,
    ensures
        remaining(frames, true, b, d) < remaining(frames.push(f), done, b, d),
{
    let n = frames.len() as int;
    assert(frames.push(f).drop_last() =~= frames);
    assert(frames.push(f).last() == f);
    let w0 = weight(b, (d - n) as nat);
    let w1 = weight(b, (d - n - 1) as nat);
    lemma_weight_positive(b, (d - n - 1) as nat);
    assert(w0 == b * w1);
    let s = stack_cost(frames, b, d);
    let m = if done {
        0
    } else {
        b - 1
    };
    let x = f.row;
    assert(s + 0 * w0 + w0 - 1 < s + (b - 1 - x) * w0 + m * w1 + w1 - 1) by (nonlinear_arith)
        requires
            w0 == b * w1,
            w1 >= 1,
            x <= b - 2,
            m >= 0,
            b >= 2,
    ;
}

/// The levels above the last one are a sound path of their own.
pub proof fn lemma_path_front(l: Layout, frames: Seq<Frame>)
    requires
        frames.len() > 0,
        path_ok(l, frames),
    ensures
        path_ok(l, frames.drop_last()),
        flat(l, frames) == flat(l, frames.drop_last()) + cyc(l, frames.last().row),
        live(l, flat(l, frames.drop_last()), l.rows[frames.last().row]),
        l.is_cell(frames.last().row),
        l.top(frames.last().row) == frames.last().item,
        1 <= frames.last().item <= l.primary,
{
    let front = frames.drop_last();
    let n = frames.len() - 1;
    assert(frames[n] == frames.last());
    assert(frames.take(n) =~= front);
    assert(live(l, flat(l, frames.take(n)), tried(l, frames, n)));
    assert forall|lv: int| 0 <= lv < front.len() implies {
        &&& l.is_cell((#[trigger] front[lv]).row)
        &&& l.top(front[lv].row) == front[lv].item
        &&& 1 <= front[lv].item <= l.primary
    } by {
        assert(front[lv] == frames[lv]);
    }
    assert forall|lv: int| 0 <= lv < front.len() implies live(
        l,
        flat(l, front.take(lv)),
        #[trigger] tried(l, front, lv),
    ) by {
        assert(front.take(lv) =~= frames.take(lv));
        assert(tried(l, front, lv) == tried(l, frames, lv));
        assert(live(l, flat(l, frames.take(lv)), tried(l, frames, lv)));
    }
}

/// A sound path grows by a level that tries a free option.
pub proof fn lemma_path_push(l: Layout, frames: Seq<Frame>, f: Frame)
    requires
        path_ok(l, frames),
        l.is_cell(f.row),
        l.top(f.row) == f.item,
        1 <= f.item <= l.primary,
        live(l, flat(l, frames), l.rows[f.row]),
    ensures
        path_ok(l, frames.push(f)),
        flat(l, frames.push(f)) == flat(l, frames) + cyc(l, f.row),
{
    let g = frames.push(f);
    assert(g.drop_last() =~= frames);
    assert(g.last() == f);
    assert forall|lv: int| 0 <= lv < g.len() implies {
        &&& l.is_cell((#[trigger] g[lv]).row)
        &&& l.top(g[lv].row) == g[lv].item
        &&& 1 <= g[lv].item <= l.primary
    } by {
        if lv < frames.len() {
            assert(g[lv] == frames[lv]);
        }
    }
    assert forall|lv: int| 0 <= lv < g.len() implies live(
        l,
        flat(l, g.take(lv)),
        #[trigger] tried(l, g, lv),
    ) by {
        if lv < frames.len() {
            assert(g.take(lv) =~= frames.take(lv));
            assert(tried(l, g, lv) == tried(l, frames, lv));
            assert(live(l, flat(l, frames.take(lv)), tried(l, frames, lv)));
        } else {
            assert(g.take(lv) =~= frames);
        }
    }
}

/// Every tried cell lies in the arena, and there are no more levels than
/// items.
pub proof fn lemma_depth(l: Layout, frames: Seq<Frame>)
    requires
        l.wf(),
        cells_ok(l, frames),
    ensures
        rows_in(frames, l.size() + 1),
        frames.len() <= flat(l, frames).len(),
    decreases frames.len(),
{
    if frames.len() > 0 {
        let front = frames.drop_last();
        assert forall|lv: int| 0 <= lv < front.len() implies {
            &&& l.is_cell((#[trigger] front[lv]).row)
            &&& l.top(front[lv].row) == front[lv].item
            &&& 1 <= front[lv].item <= l.primary
        } by {
            assert(front[lv] == frames[lv]);
        }
        lemma_depth(l, front);
        assert(frames[frames.len() - 1] == frames.last());
        lemma_cyc_members(l, frames.last().row, 0);
        lemma_cell_facts(l, frames.last().row);
        assert forall|lv: int| 0 <= lv < frames.len() implies 1 <= (#[trigger] frames[lv]).row
            <= l.size() + 1 - 2 by {
            lemma_cell_facts(l, frames[lv].row);
        }
    }
}

/// The other items of a free option are uncovered, also after one of its
/// items was covered, and they are distinct.
pub proof fn lemma_others_free(l: Layout, cov: Seq<int>, x: int)
    requires
        l.wf(),
        l.is_cell(x),
        live(l, cov, l.rows[x]),
    ensures
        tops(l, l.others(x)).no_duplicates(),
        forall|k: int|
            0 <= k < l.others(x).len() ==> {
                &&& 1 <= #[trigger] tops(l, l.others(x))[k] <= l.count
                &&& !cov.contains(tops(l, l.others(x))[k])
                &&& tops(l, l.others(x))[k] != l.top(x)
            },
        cyc(l, x) == seq![l.top(x)] + tops(l, l.others(x)),
{
    let o = l.rows[x];
    let oth = l.others(x);
    let t = tops(l, oth);
    lemma_cell_facts(l, x);
    lemma_others_member(l, x, 0);
    lemma_live_items(l, cov, o);
    assert forall|k: int| 0 <= k < oth.len() implies {
        &&& l.is_cell(#[trigger] oth[k])
        &&& l.rows[oth[k]] == o
        &&& oth[k] != x
    } by {
        assert(oth.contains(oth[k]));
        lemma_others_member(l, x, oth[k]);
        lemma_block(l, x, oth[k]);
    }
    assert forall|k: int| 0 <= k < oth.len() implies {
        &&& 1 <= #[trigger] t[k] <= l.count
        &&& !cov.contains(t[k])
        &&& t[k] != l.top(x)
    } by {
        let y = oth[k];
        assert(l.is_cell(oth[k]));
        lemma_cell_facts(l, y);
        lemma_item_cell(l, o, l.top(y));
        if l.top(y) == l.top(x) {
            lemma_one_cell_per_item(l, x, y);
        }
    }
    assert forall|a: int, b: int| 0 <= a < t.len() && 0 <= b < t.len() && a != b implies t[a]
        != t[b] by {
        assert(l.is_cell(oth[a]) && l.is_cell(oth[b]));
        if t[a] == t[b] {
            lemma_one_cell_per_item(l, oth[a], oth[b]);
        }
    }
    assert(cyc(l, x) =~= seq![l.top(x)] + t);
}

} // verus!
