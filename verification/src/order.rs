use crate::model::{live, row_cells, Layout};
use crate::trace::{flat, free_gap, tops, Frame};
use vstd::prelude::*;

verus! {

/// The cells of column `j` below position `k` whose options are free when
/// the items of `cov` are covered, in arena order.
pub open spec fn free_cells(l: Layout, cov: Seq<int>, j: int, k: int) -> Seq<int>
    decreases k,
{
    if k <= 0 {
        Seq::empty()
    } else {
        let r = free_cells(l, cov, j, k - 1);
        if l.is_cell(k - 1) && l.top(k - 1) == j && live(l, cov, l.rows[k - 1]) {
            r.push(k - 1)
        } else {
            r
        }
    }
}

/// How many free options name item `j`.
pub open spec fn degree(l: Layout, cov: Seq<int>, j: int) -> nat {
    free_cells(l, cov, j, l.size()).len()
}

/// Item `j` is a primary item that is not covered.
pub open spec fn open_item(l: Layout, cov: Seq<int>, j: int) -> bool {
    1 <= j <= l.primary && !cov.contains(j)
}

/// Every primary item is covered.
pub open spec fn solved(l: Layout, cov: Seq<int>) -> bool {
    forall|j: int| 1 <= j <= l.primary ==> #[trigger] cov.contains(j)
}

/// Item `i` is the one to cover next: among the uncovered primary items
/// the first of those that the fewest free options name.
pub open spec fn is_choice(l: Layout, cov: Seq<int>, i: int) -> bool {
    &&& open_item(l, cov, i)
    &&& forall|j: int| #[trigger] open_item(l, cov, j) ==> degree(l, cov, i) <= degree(l, cov, j)
    &&& forall|j: int|
        #[trigger] open_item(l, cov, j) && j < i ==> degree(l, cov, i) < degree(l, cov, j)
}

/// The item to cover next.
pub open spec fn choice(l: Layout, cov: Seq<int>) -> int {
    choose|i: int| is_choice(l, cov, i)
}

/// The first cell of column `i` at or after position `from` whose option
/// is free, or `i` itself if there is none.
pub open spec fn first_free(l: Layout, cov: Seq<int>, i: int, from: int) -> int
    decreases l.size() - from,
{
    if from >= l.size() {
        i
    } else if l.is_cell(from) && l.top(from) == i && live(l, cov, l.rows[from]) {
        from
    } else {
        first_free(l, cov, i, from + 1)
    }
}

/// The links that covering item `i` changes: one for the item, and one
/// for each other cell of each free option that names it.
pub open spec fn cover_cost(l: Layout, cov: Seq<int>, i: int) -> nat {
    1 + row_cells(l, free_cells(l, cov, i, l.size())).len()
}

/// The links that covering the first `k` of `items` one after the other
/// changes.
pub open spec fn cost_upto(l: Layout, cov: Seq<int>, items: Seq<int>, k: int) -> nat
    decreases k,
{
    if k <= 0 {
        0
    } else {
        cost_upto(l, cov, items, k - 1) + cover_cost(l, cov + items.take(k - 1), items[k - 1])
    }
}

/// The links that covering the other items of the option of `x` changes.
pub open spec fn others_cost(l: Layout, cov: Seq<int>, x: int) -> nat {
    cost_upto(l, cov, tops(l, l.others(x)), l.others(x).len() as int)
}

/// Where a search stands: the levels, whether the part of the tree below
/// the last level is done with, the paths that led to the covers found, and
/// the counts of nodes visited and links changed, the largest number of
/// options that a chosen item had, and the deepest level reached.
pub struct Stage {
    pub frames: Seq<Frame>,
    pub done: bool,
    pub paths: Seq<Seq<Frame>>,
    pub visited: nat,
    pub updates: nat,
    pub degree: nat,
    pub depth: nat,
}

/// A count that stops at the largest number that fits.
pub open spec fn capped(n: int) -> int {
    if n <= usize::MAX {
        n
    } else {
        usize::MAX as int
    }
}

/// The larger of two numbers.
pub open spec fn larger(a: nat, b: nat) -> nat {
    if a < b {
        b
    } else {
        a
    }
}

/// A search that has not taken a step.
pub open spec fn start() -> Stage {
    Stage {
        frames: Seq::empty(),
        done: false,
        paths: Seq::empty(),
        visited: 0,
        updates: 0,
        degree: 0,
        depth: 0,
    }
}

/// With item `i` covered below the last level, tries cell `x` of its
/// column: goes a level down, covering the other items of the option, or,
/// if `x` is `i` itself because the column is used up, gives the level up.
pub open spec fn enter(l: Layout, s: Stage, i: int, x: int) -> Stage {
    if x == i {
        Stage { done: true, ..s }
    } else {
        Stage {
            frames: s.frames.push(Frame { item: i, row: x }),
            done: false,
            updates: s.updates + others_cost(l, flat(l, s.frames).push(i), x),
            depth: larger(s.depth, s.frames.len() + 1),
            ..s
        }
    }
}

/// What a search that finds every primary item covered notes: one more
/// cover, reached by the path of its levels.
pub open spec fn noted(s: Stage) -> Stage {
    Stage {
        paths: s.paths.push(s.frames),
        visited: s.visited + 1,
        depth: larger(s.depth, s.frames.len() + 1),
        done: true,
        ..s
    }
}

/// One step of the search. While a primary item is uncovered and the
/// level below was not just given up, the item to cover next is chosen and
/// the first free cell of its column is tried. Otherwise a cover is noted if
/// there is one, and the search goes back a level to try the next free
/// cell there. A search that has gone back behind its first level stays
/// as it is.
#[verifier::opaque]
pub open spec fn step(l: Layout, s: Stage) -> Stage {
    let cov = flat(l, s.frames);
    if !s.done && !solved(l, cov) {
        let i = choice(l, cov);
        enter(
            l,
            Stage {
                visited: s.visited + 1,
                degree: larger(s.degree, degree(l, cov, i)),
                updates: s.updates + cover_cost(l, cov, i),
                ..s
            },
            i,
            first_free(l, cov, i, 0),
        )
    } else {
        let t = if s.done {
            s
        } else {
            noted(s)
        };
        if t.frames.len() == 0 {
            t
        } else {
            let f = t.frames.last();
            let front = t.frames.drop_last();
            enter(
                l,
                Stage { frames: front, ..t },
                f.item,
                first_free(l, flat(l, front), f.item, f.row + 1),
            )
        }
    }
}

/// Where the search stands after `n` steps.
pub open spec fn trace(l: Layout, n: nat) -> Stage
    decreases n,
{
    if n == 0 {
        start()
    } else {
        step(l, trace(l, (n - 1) as nat))
    }
}

/// The search is over: it is back behind its first level.
pub open spec fn over(s: Stage) -> bool {
    s.done && s.frames.len() == 0
}

/// A search that is over stays as it is.
pub proof fn lemma_over_stays(l: Layout, n: nat, m: nat)
    requires
        over(trace(l, n)),
        n <= m,
    ensures
        trace(l, m) == trace(l, n),
    decreases m - n,
{
    if n < m {
        lemma_over_stays(l, n, (m - 1) as nat);
        reveal(step);
    }
}

/// The step from a stage on which a primary item is uncovered and the
/// level below was not just given up.
pub proof fn lemma_step_forward(l: Layout, s: Stage)
    requires
        !s.done,
        !solved(l, flat(l, s.frames)),
    ensures
        step(l, s) == enter(
            l,
            Stage {
                visited: s.visited + 1,
                degree: larger(
                    s.degree,
                    degree(l, flat(l, s.frames), choice(l, flat(l, s.frames))),
                ),
                updates: s.updates + cover_cost(
                    l,
                    flat(l, s.frames),
                    choice(l, flat(l, s.frames)),
                ),
                ..s
            },
            choice(l, flat(l, s.frames)),
            first_free(l, flat(l, s.frames), choice(l, flat(l, s.frames)), 0),
        ),
{
    reveal(step);
}

/// The step from a stage with the level below given up: back to the last
/// level, or nowhere if there is none.
pub proof fn lemma_step_back(l: Layout, s: Stage)
    requires
        s.done,
    ensures
        s.frames.len() == 0 ==> step(l, s) == s,
        s.frames.len() > 0 ==> step(l, s) == enter(
            l,
            Stage { frames: s.frames.drop_last(), ..s },
            s.frames.last().item,
            first_free(
                l,
                flat(l, s.frames.drop_last()),
                s.frames.last().item,
                s.frames.last().row + 1,
            ),
        ),
{
    reveal(step);
}

/// The step from a stage on which every primary item is covered is the
/// step from the stage with the cover noted, or just the noting if there
/// is no level to go back to.
pub proof fn lemma_step_noted(l: Layout, s: Stage)
    requires
        !s.done,
        solved(l, flat(l, s.frames)),
    ensures
        s.frames.len() == 0 ==> step(l, s) == noted(s),
        s.frames.len() > 0 ==> step(l, s) == step(l, noted(s)),
{
    reveal(step);
}

/// However many steps it takes for a search to be over, it ends in the
/// same place.
pub proof fn lemma_one_end(l: Layout, n: nat, m: nat)
    requires
        over(trace(l, n)),
        over(trace(l, m)),
    ensures
        trace(l, n) == trace(l, m),
{
    if n <= m {
        lemma_over_stays(l, n, m);
    } else {
        lemma_over_stays(l, m, n);
    }
}

/// The item to cover next is determined.
pub proof fn lemma_choice(l: Layout, cov: Seq<int>, i: int)
    requires
        is_choice(l, cov, i),
    ensures
        choice(l, cov) == i,
{
    let c = choice(l, cov);
    assert(is_choice(l, cov, c));
    assert(open_item(l, cov, i));
    assert(open_item(l, cov, c));
}

/// Where no free option has a cell of column `i` between `a` and `b`, and
/// `b` is such a cell or the end of the arena, the first such cell after
/// `a` is `b`, or there is none.
pub proof fn lemma_first_free(l: Layout, cov: Seq<int>, i: int, a: int, b: int)
    requires
        a < b <= l.size(),
        free_gap(l, cov, i, a, b),
        b < l.size() ==> l.is_cell(b) && l.top(b) == i && live(l, cov, l.rows[b]),
    ensures
        first_free(l, cov, i, a + 1) == if b < l.size() {
            b
        } else {
            i
        },
    decreases b - a,
{
    if a + 1 < b {
        if l.is_cell(a + 1) && l.top(a + 1) == i {
            assert(!live(l, cov, l.rows[a + 1]));
        }
        lemma_first_free(l, cov, i, a + 1, b);
    }
}

} // verus!
