use crate::exact::is_cover;
use crate::model::{
    lemma_cell_facts, lemma_distinct_bounded, lemma_item_cell, lemma_live_items, live, Layout,
};
use crate::order::{
    choice, cover_cost, degree, enter, first_free, is_choice, larger, noted, open_item, over,
    solved, start, step, trace, Stage,
};
use crate::trace::{
    chosen, cyc, flat, found_at, found_mid, free_gap, lemma_depth, lemma_found_all,
    lemma_found_descend, lemma_found_exhaust, lemma_found_forward, lemma_found_none,
    lemma_found_record, lemma_found_retreat, lemma_others_free, lemma_path_front,
    lemma_path_push, lemma_remaining_advance, lemma_remaining_descend,
    lemma_remaining_exhaust, lemma_remaining_leave, lemma_remaining_positive, path_ok,
    remaining, tops, Frame,
};
use vstd::prelude::*;

verus! {

/// The selections that the paths led to.
pub open spec fn covers_of(l: Layout, paths: Seq<Seq<Frame>>) -> Seq<Set<int>> {
    Seq::new(paths.len(), |k: int| chosen(l, paths[k]))
}

/// The stage is sound: its levels try options that exclude each other, and
/// the paths noted lead to the exact covers in the part of the tree that
/// the search is through with, each once.
pub open spec fn good(l: Layout, s: Stage) -> bool {
    &&& path_ok(l, s.frames)
    &&& found_at(l, s.frames, s.done, covers_of(l, s.paths))
}

/// What the options tried on the paths are for an instance: the exact
/// covers, each of them on one path.
pub open spec fn complete(l: Layout, paths: Seq<Seq<Frame>>) -> bool {
    &&& covers_of(l, paths).no_duplicates()
    &&& forall|s: Set<int>| covers_of(l, paths).contains(s) <==> is_cover(l.primary, l.options, s)
}

/// The best choice among the items up to `k`, or 0 if none of them is
/// uncovered.
pub open spec fn best(l: Layout, cov: Seq<int>, k: int) -> int
    decreases k,
{
    if k <= 0 {
        0
    } else {
        let b = best(l, cov, k - 1);
        if open_item(l, cov, k) && (b == 0 || degree(l, cov, k) < degree(l, cov, b)) {
            k
        } else {
            b
        }
    }
}

/// What the best choice among the first items is.
proof fn lemma_best(l: Layout, cov: Seq<int>, k: int)
    requires
        0 <= k <= l.primary,
    ensures
        ({
            let b = best(l, cov, k);
            &&& 0 <= b <= k
            &&& b == 0 ==> forall|j: int| 1 <= j <= k ==> !#[trigger] open_item(l, cov, j)
            &&& b != 0 ==> {
                &&& open_item(l, cov, b)
                &&& forall|j: int|
                    1 <= j <= k && #[trigger] open_item(l, cov, j) ==> degree(l, cov, b) <= degree(
                        l,
                        cov,
                        j,
                    )
                &&& forall|j: int|
                    1 <= j < b && #[trigger] open_item(l, cov, j) ==> degree(l, cov, b) < degree(
                        l,
                        cov,
                        j,
                    )
            }
        }),
    decreases k,
{
    if k > 0 {
        lemma_best(l, cov, k - 1);
    }
}

/// While a primary item is uncovered, there is an item to cover next.
pub proof fn lemma_choice_exists(l: Layout, cov: Seq<int>)
    requires
        0 <= l.primary,
        !solved(l, cov),
    ensures
        is_choice(l, cov, choice(l, cov)),
{
    lemma_best(l, cov, l.primary);
    let b = best(l, cov, l.primary);
    let j = choose|j: int| 1 <= j <= l.primary && !#[trigger] cov.contains(j);
    assert(open_item(l, cov, j));
    assert(is_choice(l, cov, b));
}

/// The first free cell from a place on is a free cell of the column, and
/// no free cell of the column lies before it; or there is none.
pub proof fn lemma_first_free_facts(l: Layout, cov: Seq<int>, i: int, from: int)
    requires
        l.wf(),
        1 <= i <= l.count,
        0 <= from,
    ensures
        ({
            let r = first_free(l, cov, i, from);
            &&& r == i || (from <= r < l.size() && l.is_cell(r) && l.top(r) == i && live(
                l,
                cov,
                l.rows[r],
            ))
            &&& free_gap(l, cov, i, from - 1, if r == i {
                l.size()
            } else {
                r
            })
        }),
    decreases l.size() - from,
{
    if from < l.size() {
        if !(l.is_cell(from) && l.top(from) == i && live(l, cov, l.rows[from])) {
            lemma_first_free_facts(l, cov, i, from + 1);
        }
    }
}

/// The items covered on a sound path are distinct items.
pub proof fn lemma_flat_distinct(l: Layout, frames: Seq<Frame>)
    requires
        l.wf(),
        path_ok(l, frames),
    ensures
        flat(l, frames).no_duplicates(),
        forall|t: int| 0 <= t < flat(l, frames).len() ==> 1 <= #[trigger] flat(l, frames)[t]
            <= l.count,
        frames.len() <= l.count,
    decreases frames.len(),
{
    if frames.len() > 0 {
        let front = frames.drop_last();
        let x = frames.last().row;
        lemma_path_front(l, frames);
        lemma_flat_distinct(l, front);
        lemma_others_free(l, flat(l, front), x);
        lemma_cell_facts(l, x);
        lemma_live_items(l, flat(l, front), l.rows[x]);
        lemma_item_cell(l, l.rows[x], l.top(x));
        let a = flat(l, front);
        let b = cyc(l, x);
        let t = tops(l, l.others(x));
        let c = a + b;
        assert forall|u: int| 0 <= u < b.len() implies 1 <= #[trigger] b[u] <= l.count
            && !a.contains(b[u]) by {
            if u > 0 {
                assert(b[u] == t[u - 1]);
            }
        }
        assert forall|u: int, v: int| 0 <= u < c.len() && 0 <= v < c.len() && u != v implies c[u]
            != c[v] by {
            if u < a.len() && v < a.len() {
            } else if u < a.len() {
                assert(a.contains(c[u]));
                assert(c[v] == b[v - a.len()]);
            } else if v < a.len() {
                assert(a.contains(c[v]));
                assert(c[u] == b[u - a.len()]);
            } else {
                let p = u - a.len();
                let q = v - a.len();
                assert(c[u] == b[p] && c[v] == b[q]);
                if p > 0 && q > 0 {
                    assert(t[p - 1] != t[q - 1]);
                } else if p > 0 {
                    assert(b[p] == t[p - 1]);
                } else {
                    assert(b[q] == t[q - 1]);
                }
            }
        }
    }
    lemma_distinct_bounded(flat(l, frames), 1, l.count + 1);
    lemma_depth(l, frames);
}

/// The bound on the steps that a stage can still take.
pub open spec fn left(l: Layout, s: Stage) -> int {
    remaining(s.frames, s.done, l.size() + 1, l.count)
}

/// With an item covered below the last level, trying a cell of its column
/// leaves a sound stage, closer to the end.
#[verifier::rlimit(40)]
proof fn lemma_enter(l: Layout, s: Stage, i: int, x: int, was: int)
    requires
        l.wf(),
        path_ok(l, s.frames),
        1 <= i <= l.primary,
        !flat(l, s.frames).contains(i),
        x == i || (l.is_cell(x) && l.top(x) == i && live(l, flat(l, s.frames), l.rows[x])),
        found_mid(
            l,
            s.frames,
            i,
            if x == i {
                l.size()
            } else {
                x
            },
            covers_of(l, s.paths),
        ),
        was >= remaining(s.frames, false, l.size() + 1, l.count) || (x != i && exists|f: Frame|
            1 <= f.row < x && was >= remaining(
                s.frames.push(f),
                true,
                l.size() + 1,
                l.count,
            )) || (x == i && exists|f: Frame|
            1 <= f.row <= l.size() - 1 && was >= remaining(
                s.frames.push(f),
                true,
                l.size() + 1,
                l.count,
            )),
    ensures
        good(l, enter(l, s, i, x)),
        left(l, enter(l, s, i, x)) < was,
{
    let b = l.size() + 1;
    let d = l.count;
    let found = covers_of(l, s.paths);
    if x == i {
        lemma_found_exhaust(l, s.frames, i, found);
        lemma_remaining_exhaust(s.frames, b, d);
        if !(was >= remaining(s.frames, false, b, d)) {
            let f = choose|f: Frame|
                1 <= f.row <= l.size() - 1 && was >= remaining(s.frames.push(f), true, b, d);
            lemma_flat_distinct_room(l, s.frames, i);
            lemma_remaining_leave(s.frames, f, true, b, d);
        }
    } else {
        let g = Frame { item: i, row: x };
        lemma_path_push(l, s.frames, g);
        lemma_found_descend(l, s.frames, i, x, found);
        lemma_cell_facts(l, x);
        lemma_flat_distinct(l, s.frames.push(g));
        if was >= remaining(s.frames, false, b, d) {
            lemma_remaining_descend(s.frames, g, b, d);
        } else {
            let f = choose|f: Frame|
                1 <= f.row < x && was >= remaining(s.frames.push(f), true, b, d);
            lemma_remaining_advance(s.frames, f, g, true, b, d);
        }
    }
}

/// While an item is uncovered, there is room for one more level.
proof fn lemma_flat_distinct_room(l: Layout, frames: Seq<Frame>, i: int)
    requires
        l.wf(),
        path_ok(l, frames),
        1 <= i <= l.primary,
        !flat(l, frames).contains(i),
    ensures
        frames.len() < l.count,
{
    lemma_flat_distinct(l, frames);
    let c = flat(l, frames).push(i);
    assert forall|u: int, v: int| 0 <= u < c.len() && 0 <= v < c.len() && u != v implies c[u]
        != c[v] by {
        if u < c.len() - 1 {
            assert(flat(l, frames).contains(c[u]));
        }
        if v < c.len() - 1 {
            assert(flat(l, frames).contains(c[v]));
        }
    }
    lemma_distinct_bounded(c, 1, l.count + 1);
    lemma_depth(l, frames);
}

/// A step leaves a sound stage sound, and brings a stage that is not at
/// the end closer to it.
#[verifier::rlimit(40)]
pub proof fn lemma_step(l: Layout, s: Stage)
    requires
        l.wf(),
        good(l, s),
    ensures
        good(l, step(l, s)),
        0 <= left(l, s),
        !over(s) ==> left(l, step(l, s)) < left(l, s),
{
    reveal(step);
    let b = l.size() + 1;
    let d = l.count;
    let cov = flat(l, s.frames);
    let found = covers_of(l, s.paths);
    lemma_depth(l, s.frames);
    lemma_remaining_positive(s.frames, s.done, b, d);
    if !s.done && !solved(l, cov) {
        lemma_choice_exists(l, cov);
        let i = choice(l, cov);
        let x = first_free(l, cov, i, 0);
        lemma_first_free_facts(l, cov, i, 0);
        let bound = if x == i {
            l.size()
        } else {
            x
        };
        lemma_found_forward(l, s.frames, i, bound, found);
        let mid = Stage {
            visited: s.visited + 1,
            degree: larger(s.degree, degree(l, cov, i)),
            updates: s.updates + cover_cost(l, cov, i),
            ..s
        };
        lemma_enter(l, mid, i, x, left(l, s));
    } else {
        let t = if s.done {
            s
        } else {
            noted(s)
        };
        if !s.done {
            lemma_found_record(l, s.frames, found);
            lemma_remaining_exhaust(s.frames, b, d);
            assert(covers_of(l, s.paths.push(s.frames)) =~= found.push(chosen(l, s.frames)));
        }
        if t.frames.len() > 0 {
            let f = t.frames.last();
            let front = t.frames.drop_last();
            lemma_path_front(l, t.frames);
            lemma_cell_facts(l, f.row);
            lemma_live_items(l, flat(l, front), l.rows[f.row]);
            lemma_item_cell(l, l.rows[f.row], f.item);
            let x2 = first_free(l, flat(l, front), f.item, f.row + 1);
            lemma_first_free_facts(l, flat(l, front), f.item, f.row + 1);
            let bound = if x2 == f.item {
                l.size()
            } else {
                x2
            };
            assert(t.frames =~= front.push(f));
            lemma_found_retreat(l, front, f, bound, covers_of(l, t.paths));
            lemma_enter(l, Stage { frames: front, ..t }, f.item, x2, left(l, t));
        }
    }
}

/// One more step from where the search stands after `n` steps brings it
/// closer to the end, unless it is there.
pub proof fn lemma_progress(l: Layout, n: nat)
    requires
        l.wf(),
    ensures
        trace(l, n + 1) == step(l, trace(l, n)),
        0 <= left(l, trace(l, n + 1)),
        !over(trace(l, n)) ==> left(l, trace(l, n + 1)) < left(l, trace(l, n)),
{
    lemma_trace_good(l, n);
    lemma_step(l, trace(l, n));
    lemma_trace_good(l, n + 1);
    lemma_step(l, trace(l, n + 1));
}

/// After any number of steps the search stands on a sound stage.
pub proof fn lemma_trace_good(l: Layout, n: nat)
    requires
        l.wf(),
    ensures
        good(l, trace(l, n)),
    decreases n,
{
    if n == 0 {
        lemma_found_none(l);
        assert(covers_of(l, start().paths) =~= Seq::<Set<int>>::empty());
    } else {
        lemma_trace_good(l, (n - 1) as nat);
        lemma_step(l, trace(l, (n - 1) as nat));
    }
}

/// From wherever the search stands, it comes to an end.
proof fn lemma_ends_from(l: Layout, n: nat)
    requires
        l.wf(),
    ensures
        exists|m: nat| over(#[trigger] trace(l, m)),
    decreases left(l, trace(l, n)),
{
    lemma_trace_good(l, n);
    lemma_step(l, trace(l, n));
    if !over(trace(l, n)) {
        assert(trace(l, n + 1) == step(l, trace(l, n)));
        lemma_trace_good(l, n + 1);
        lemma_step(l, trace(l, n + 1));
        lemma_ends_from(l, n + 1);
    }
}

/// The search comes to an end: after some number of steps it is back
/// behind its first level.
pub proof fn lemma_search_ends(l: Layout)
    requires
        l.wf(),
    ensures
        exists|m: nat| over(#[trigger] trace(l, m)),
{
    lemma_ends_from(l, 0);
}

/// When the search is over, the paths it has noted lead to the exact
/// covers of the instance: to each of them, and to none twice.
pub proof fn lemma_search_complete(l: Layout, n: nat)
    requires
        l.wf(),
        over(trace(l, n)),
    ensures
        complete(l, trace(l, n).paths),
{
    lemma_trace_good(l, n);
    let s = trace(l, n);
    assert(s.frames =~= Seq::<Frame>::empty());
    lemma_found_all(l, covers_of(l, s.paths));
}

} // verus!
