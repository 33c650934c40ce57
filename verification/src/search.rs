use crate::clock::{read, Elapsed};
use crate::complete::{
    complete, covers_of, good, left, lemma_progress, lemma_search_complete, lemma_trace_good,
};
use crate::config::Config;
use crate::describe::{lemma_line_text, line_text, position_of};
use crate::exact::{all_covers, is_cover, lemma_count_covers};
use crate::matrix::DancingLinks;
use crate::model::{in_list, lemma_cell_facts, lemma_push_contains, live, reach, Layout, State};
use crate::order::{
    capped, cover_cost, degree, enter, larger, lemma_first_free, lemma_step_back,
    lemma_step_forward, lemma_step_noted, noted, others_cost, over, step, trace, Stage,
};
use crate::trace::{
    chosen, cyc, flat, free_gap, lemma_depth, lemma_others_free, lemma_path_front,
    lemma_path_push, path_ok, tops, tried, Frame,
};
use crate::walk::{
    lemma_cov_bounded, lemma_cover_cost, lemma_gap_below, lemma_linked_last, lemma_solved,
};
use std::time::Instant;
use vstd::prelude::*;

verus! {

/// How a search ended.
#[derive(Clone, Copy, Debug, PartialEq, Eq, Structural)]
pub enum Outcome {
    /// The whole tree was searched.
    Finished,
    /// The time allowed ran out before that.
    TimedOut,
}

/// What became of one step of a search.
#[derive(Clone, Copy, Debug, PartialEq, Eq, Structural)]
pub enum Tick {
    /// The step was taken and the search goes on.
    Running,
    /// The step was taken and the search is over.
    Finished,
    /// The time allowed had run out, and no step was taken.
    TimedOut,
}

/// An exact cover that was shown: which one it was in the order of
/// finding, the cell tried on each level, and the line that describes the
/// option of each.
pub struct Solution {
    pub ordinal: usize,
    pub rows: Vec<usize>,
    pub lines: Vec<String>,
}

/// Where the search stood on one level when a progress report was made:
/// the place of the cell tried in its column, and the size of the column.
pub struct Branch {
    pub position: Option<usize>,
    pub length: usize,
}

/// A progress report.
pub struct Progress {
    pub elapsed_secs: u64,
    pub solution_count: usize,
    pub branches: Vec<Branch>,
}

/// What a search gives back: the counters, the time taken, how it ended,
/// the solutions shown and the progress reports made.
pub struct Report {
    pub solution_count: usize,
    pub elapsed: Elapsed,
    pub visited_nodes: usize,
    pub update_count: usize,
    pub max_degree: usize,
    pub max_level: usize,
    pub outcome: Outcome,
    pub solutions: Vec<Solution>,
    pub progress: Vec<Progress>,
}

/// The state of a search that is under way: the cell tried on each level,
/// whether the level below was just given up, the counters, and what was
/// shown and reported so far.
pub struct Search {
    backtrack: Vec<usize>,
    exit_level: bool,
    solution_count: usize,
    visited_nodes: usize,
    update_count: usize,
    max_degree: usize,
    max_level: usize,
    show_first: bool,
    solution_interval: usize,
    timeout: Option<u64>,
    report_delta: u64,
    time_threshold: u64,
    solutions: Vec<Solution>,
    progress: Vec<Progress>,
    layout: Ghost<Layout>,
    origin: Ghost<State>,
    frames: Ghost<Seq<Frame>>,
    paths: Ghost<Seq<Seq<Frame>>>,
    exact: Ghost<(nat, nat, nat, nat)>,
    steps: Ghost<nat>,
}

/// Whether the solution found as number `ordinal` is to be shown: the
/// first one if asked for, and every one whose number the interval divides.
pub open spec fn wanted(show_first: bool, interval: usize, ordinal: int) -> bool {
    (show_first && ordinal == 1) || (interval > 0 && ordinal % (interval as int) == 0)
}

/// The numbers up to `n` of the solutions to be shown, in rising order.
pub open spec fn wanted_upto(show_first: bool, interval: usize, n: nat) -> Seq<int>
    decreases n,
{
    if n == 0 {
        Seq::empty()
    } else if wanted(show_first, interval, n as int) {
        wanted_upto(show_first, interval, (n - 1) as nat).push(n as int)
    } else {
        wanted_upto(show_first, interval, (n - 1) as nat)
    }
}

/// The options of the given cells, as a selection.
pub open spec fn picked(l: Layout, rows: Seq<usize>) -> Set<int> {
    Set::new(|o: int| exists|t: int| 0 <= t < rows.len() && l.rows[#[trigger] rows[t] as int] == o)
}

/// The numbers of the solutions shown.
pub open spec fn ordinals(solutions: Seq<Solution>) -> Seq<int> {
    Seq::new(solutions.len(), |k: int| solutions[k].ordinal as int)
}

/// The stack holds the cells that the levels try.
pub open spec fn stack_ok(stack: Seq<usize>, frames: Seq<Frame>) -> bool {
    &&& stack.len() == frames.len()
    &&& forall|lv: int| 0 <= lv < frames.len() ==> (#[trigger] stack[lv]) == frames[lv].row
}

/// The lines of a solution describe the options of the path, level by
/// level.
pub open spec fn lines_ok(l: Layout, path: Seq<Frame>, lines: Seq<String>) -> bool {
    &&& lines.len() == path.len()
    &&& forall|t: int| 0 <= t < lines.len() ==> (#[trigger] lines[t])@ == line_text(l, path, t)
}

/// Every solution shown holds the cells of the path that led to the cover
/// with its number, and the lines that describe its options.
pub open spec fn shown_ok(l: Layout, paths: Seq<Seq<Frame>>, solutions: Seq<Solution>) -> bool {
    forall|k: int|
        0 <= k < solutions.len() ==> {
            &&& 1 <= (#[trigger] solutions[k]).ordinal <= paths.len()
            &&& stack_ok(solutions[k].rows@, paths[solutions[k].ordinal - 1])
            &&& lines_ok(l, paths[solutions[k].ordinal - 1], solutions[k].lines@)
        }
}

/// The progress report `p` was made after `elapsed_secs` seconds, when
/// `count` solutions were counted and the levels `frames` were open in the
/// state `st`: for each level it holds the place of the cell tried in its
/// column, and the size of the column.
pub open spec fn sampled(
    l: Layout,
    st: State,
    frames: Seq<Frame>,
    count: usize,
    elapsed_secs: u64,
    p: Progress,
) -> bool {
    &&& p.elapsed_secs == elapsed_secs
    &&& p.solution_count == count
    &&& p.branches@.len() == frames.len()
    &&& forall|lv: int|
        0 <= lv < frames.len() ==> {
            &&& (#[trigger] p.branches@[lv]).position == position_of(l, st, frames[lv].row)
            &&& p.branches@[lv].length == st.items[frames[lv].item].length
        }
}

/// The cells of a path select the options that the path tries.
pub proof fn lemma_picked(l: Layout, rows: Seq<usize>, path: Seq<Frame>)
    requires
        stack_ok(rows, path),
    ensures
        picked(l, rows) == chosen(l, path),
{
    assert forall|o: int| picked(l, rows).contains(o) == chosen(l, path).contains(o) by {
        if picked(l, rows).contains(o) {
            let t = choose|t: int| 0 <= t < rows.len() && l.rows[#[trigger] rows[t] as int] == o;
            assert(tried(l, path, t) == o);
        }
        if chosen(l, path).contains(o) {
            let lv = choose|lv: int| 0 <= lv < path.len() && #[trigger] tried(l, path, lv) == o;
            assert(l.rows[rows[lv] as int] == o);
        }
    }
    assert(picked(l, rows) =~= chosen(l, path));
}

/// The numbers of the solutions to be shown rise, and none is above the
/// number of solutions.
pub proof fn lemma_wanted_rise(show_first: bool, interval: usize, n: nat)
    ensures
        forall|k: int|
            0 <= k < wanted_upto(show_first, interval, n).len() ==> 1 <= #[trigger] wanted_upto(
                show_first,
                interval,
                n,
            )[k] <= n,
        forall|j: int, k: int|
            0 <= j < k < wanted_upto(show_first, interval, n).len() ==> wanted_upto(
                show_first,
                interval,
                n,
            )[j] < wanted_upto(show_first, interval, n)[k],
    decreases n,
{
    if n > 0 {
        lemma_wanted_rise(show_first, interval, (n - 1) as nat);
        let a = wanted_upto(show_first, interval, (n - 1) as nat);
        let b = wanted_upto(show_first, interval, n);
        assert forall|k: int| 0 <= k < b.len() implies 1 <= #[trigger] b[k] <= n by {
            if k < a.len() {
                assert(b[k] == a[k]);
            }
        }
        assert forall|j: int, k: int| 0 <= j < k < b.len() implies b[j] < b[k] by {
            assert(b[j] == a[j]);
            if k < a.len() {
                assert(b[k] == a[k]);
            }
        }
    }
}

impl Report {
    /// The report gives the counts of the stage `s`, as far as they fit,
    /// and shows, of the covers that the stage has found, those that were to
    /// be shown, each with the cells of its path and the lines that
    /// describe its options.
    pub open spec fn tells(&self, l: Layout, show_first: bool, interval: usize, s: Stage) -> bool {
        &&& self.solution_count == capped(s.paths.len() as int)
        &&& self.visited_nodes == capped(s.visited as int)
        &&& self.update_count == capped(s.updates as int)
        &&& self.max_degree == s.degree
        &&& self.max_level == s.depth
        &&& ordinals(self.solutions@) == wanted_upto(
            show_first,
            interval,
            self.solution_count as nat,
        )
        &&& shown_ok(l, s.paths, self.solutions@)
    }

    /// The solutions that a report shows for a sound stage are exact
    /// covers, no two of them the same.
    pub proof fn lemma_shown(&self, l: Layout, show_first: bool, interval: usize, s: Stage)
        requires
            l.wf(),
            good(l, s),
            self.tells(l, show_first, interval, s),
        ensures
            forall|k: int|
                0 <= k < self.solutions@.len() ==> is_cover(
                    l.primary,
                    l.options,
                    picked(l, (#[trigger] self.solutions@[k]).rows@),
                ),
            forall|j: int, k: int|
                0 <= j < k < self.solutions@.len() ==> picked(
                    l,
                    (#[trigger] self.solutions@[j]).rows@,
                ) != picked(l, (#[trigger] self.solutions@[k]).rows@),
    {
        let shown = self.solutions@;
        let covers = covers_of(l, s.paths);
        lemma_wanted_rise(show_first, interval, self.solution_count as nat);
        assert forall|k: int| 0 <= k < shown.len() implies picked(l, (#[trigger] shown[k]).rows@)
            == covers[shown[k].ordinal - 1] by {
            lemma_picked(l, shown[k].rows@, s.paths[shown[k].ordinal - 1]);
        }
        assert forall|k: int| 0 <= k < shown.len() implies is_cover(
            l.primary,
            l.options,
            picked(l, (#[trigger] shown[k]).rows@),
        ) by {
            assert(is_cover(l.primary, l.options, covers[shown[k].ordinal - 1]));
        }
        assert forall|j: int, k: int| 0 <= j < k < shown.len() implies picked(
            l,
            (#[trigger] shown[j]).rows@,
        ) != picked(l, (#[trigger] shown[k]).rows@) by {
            assert(ordinals(shown)[j] == shown[j].ordinal);
            assert(ordinals(shown)[k] == shown[k].ordinal);
            assert(shown[j].ordinal < shown[k].ordinal);
        }
    }
}

impl Search {
    /// The instance that is searched.
    pub closed spec fn layout(&self) -> Layout {
        self.layout@
    }

    /// The state of the structure before the search began.
    pub closed spec fn origin(&self) -> State {
        self.origin@
    }

    /// Where the search stands.
    pub closed spec fn stage(&self) -> Stage {
        Stage {
            frames: self.frames@,
            done: self.exit_level,
            paths: self.paths@,
            visited: self.exact@.0,
            updates: self.exact@.1,
            degree: self.exact@.2,
            depth: self.exact@.3,
        }
    }

    /// The steps taken so far.
    pub closed spec fn steps(&self) -> nat {
        self.steps@
    }

    /// The cell tried on each level.
    pub closed spec fn stack(&self) -> Seq<usize> {
        self.backtrack@
    }

    /// The number of solutions counted.
    pub closed spec fn count(&self) -> usize {
        self.solution_count
    }

    /// The counters other than the number of solutions: nodes visited,
    /// links changed, largest degree and deepest level.
    pub closed spec fn counters(&self) -> (usize, usize, usize, usize) {
        (self.visited_nodes, self.update_count, self.max_degree, self.max_level)
    }

    /// The solutions shown so far.
    pub closed spec fn shown(&self) -> Seq<Solution> {
        self.solutions@
    }

    /// The progress reports made so far.
    pub closed spec fn reports(&self) -> Seq<Progress> {
        self.progress@
    }

    /// Whether the first solution is shown, and every how many solutions
    /// one is.
    pub closed spec fn showing(&self) -> (bool, usize) {
        (self.show_first, self.solution_interval)
    }

    /// The seconds after which the search is abandoned, if any.
    pub closed spec fn deadline(&self) -> Option<u64> {
        self.timeout
    }

    /// The seconds between two progress reports, and the time from which
    /// the next one is due.
    pub closed spec fn reporting(&self) -> (u64, u64) {
        (self.report_delta, self.time_threshold)
    }

    /// The stack and the counters hold what the stage holds, as far as it
    /// fits, and the solutions shown are those that were to be shown.
    pub open spec fn counted(&self) -> bool {
        &&& stack_ok(self.stack(), self.stage().frames)
        &&& self.count() == capped(self.stage().paths.len() as int)
        &&& self.counters().0 == capped(self.stage().visited as int)
        &&& self.counters().1 == capped(self.stage().updates as int)
        &&& self.counters().2 == self.stage().degree
        &&& self.counters().3 == self.stage().depth
        &&& shown_ok(self.layout(), self.stage().paths, self.shown())
        &&& ordinals(self.shown()) == wanted_upto(
            self.showing().0,
            self.showing().1,
            self.count() as nat,
        )
    }

    /// The search and the structure fit together: the structure is sound,
    /// and exactly the items of the options tried are covered.
    pub open spec fn sound(&self, dlx: &DancingLinks) -> bool {
        &&& self.counted()
        &&& dlx.wf()
        &&& dlx.layout() == self.layout()
        &&& dlx.base() == self.origin()
        &&& path_ok(self.layout(), self.stage().frames)
        &&& dlx.state().cov == flat(self.layout(), self.stage().frames)
    }

    /// The search and the structure fit together, and the search stands
    /// where its steps have led it.
    pub open spec fn holds(&self, dlx: &DancingLinks) -> bool {
        &&& self.sound(dlx)
        &&& self.stage() == trace(self.layout(), self.steps())
    }

    /// The search stands in the middle of a level: item `i` is covered
    /// below the last level, and `x` is the cell of its column to be tried
    /// next, or `i` itself when the column is used up.
    pub open spec fn midway(&self, dlx: &DancingLinks, i: int, x: int) -> bool {
        let l = self.layout();
        let frames = self.stage().frames;
        &&& self.counted()
        &&& dlx.wf()
        &&& dlx.layout() == l
        &&& dlx.base() == self.origin()
        &&& path_ok(l, frames)
        &&& 1 <= i <= l.primary
        &&& dlx.state().cov == flat(l, frames).push(i)
        &&& (x == i || (l.is_cell(x) && l.top(x) == i && live(l, flat(l, frames), l.rows[x])))
    }

    /// The options of a run and what was shown and reported are the same
    /// in both searches.
    pub open spec fn same_side(&self, other: &Search) -> bool {
        &&& self.layout() == other.layout()
        &&& self.origin() == other.origin()
        &&& self.steps() == other.steps()
        &&& self.shown() == other.shown()
        &&& self.reports() == other.reports()
        &&& self.showing() == other.showing()
        &&& self.deadline() == other.deadline()
        &&& self.reporting() == other.reporting()
        &&& self.count() == other.count()
    }

    /// A bound on the steps that the search can still take.
    pub open spec fn budget(&self) -> int {
        left(self.layout(), self.stage())
    }

    /// A search of `dlx` that has not taken a step yet, with the options
    /// that `config` gives.
    pub fn new(dlx: &DancingLinks, config: &Config) -> (r: Self)
        requires
            dlx.wf(),
            dlx.idle(),
        ensures
            r.holds(dlx),
            r.layout() == dlx.layout(),
            r.origin() == dlx.state(),
            r.steps() == 0,
            r.count() == 0,
            r.counters() == (0usize, 0usize, 0usize, 0usize),
            r.shown().len() == 0,
            r.reports().len() == 0,
            r.showing() == (config@.show_first, config@.solution_interval),
            r.deadline() == config@.timeout,
            r.reporting() == (config@.report_delta, config@.report_delta),
    {
        let cap = dlx.get_item_count();
        proof {
            assert(dlx.state().cov =~= flat(dlx.layout(), Seq::<Frame>::empty()));
        }
        let r = Search {
            backtrack: Vec::with_capacity(cap),
            exit_level: false,
            solution_count: 0,
            visited_nodes: 0,
            update_count: 0,
            max_degree: 0,
            max_level: 0,
            show_first: config.show_first(),
            solution_interval: config.get_solution_interval(),
            timeout: config.get_timeout(),
            report_delta: config.get_report_delta(),
            time_threshold: config.get_report_delta(),
            solutions: Vec::new(),
            progress: Vec::new(),
            layout: Ghost(dlx.layout()),
            origin: Ghost(dlx.state()),
            frames: Ghost(Seq::empty()),
            paths: Ghost(Seq::empty()),
            exact: Ghost((0, 0, 0, 0)),
            steps: Ghost(0),
        };
        proof {
            assert(ordinals(r.shown()) =~= Seq::<int>::empty());
        }
        r
    }

    /// The solutions shown so far.
    pub fn solutions(&self) -> (r: &Vec<Solution>)
        ensures
            r@ == self.shown(),
    {
        &self.solutions
    }

    /// The progress reports made so far.
    pub fn progress(&self) -> (r: &Vec<Progress>)
        ensures
            r@ == self.reports(),
    {
        &self.progress
    }

    /// What the search gives back when it ends as `outcome` after the time
    /// `elapsed`.
    pub fn report(self, outcome: Outcome, elapsed: Elapsed) -> (r: Report)
        ensures
            r.solution_count == self.count(),
            r.elapsed == elapsed,
            (r.visited_nodes, r.update_count, r.max_degree, r.max_level) == self.counters(),
            r.outcome == outcome,
            r.solutions@ == self.shown(),
            r.progress@ == self.reports(),
    {
        Report {
            solution_count: self.solution_count,
            elapsed,
            visited_nodes: self.visited_nodes,
            update_count: self.update_count,
            max_degree: self.max_degree,
            max_level: self.max_level,
            outcome,
            solutions: self.solutions,
            progress: self.progress,
        }
    }
}

impl DancingLinks {
    /// The exact covers of the instance: the selections of options, each
    /// naming a primary item, that name every primary item exactly once and
    /// every secondary item at most once.
    pub open spec fn covers(&self) -> Set<Set<int>> {
        all_covers(self@.primary as int, self@.options)
    }

    /// Tries the cell `x` of the column of item `i`, which is covered
    /// already: covers the other items of its option and goes down a level,
    /// or, when the column is used up, uncovers `i` and gives the level up.
    #[verifier::rlimit(40)]
    fn try_row(&mut self, search: &mut Search, i: usize, x: usize)
        requires
            old(search).midway(old(self), i as int, x as int),
        ensures
            final(search).sound(final(self)),
            final(search).same_side(old(search)),
            final(search).stage() == enter(
                old(search).layout(),
                old(search).stage(),
                i as int,
                x as int,
            ),
    {
        let ghost l = search.layout();
        let ghost before = search.stage();
        let ghost frames = before.frames;
        if x == i {
            proof {
                assert(self.state().cov.last() == i);
                assert(self.state().cov.drop_last() =~= flat(l, frames));
            }
            self.uncover(i);
            search.exit_level = true;
        } else {
            proof {
                lemma_others_free(l, flat(l, frames), x as int);
                lemma_push_contains(flat(l, frames), i as int);
                lemma_depth(l, frames);
                lemma_cov_bounded(l, self.state());
                self.lemma_size_fits();
            }
            let n = self.cover_others(x);
            search.update_count = search.update_count.saturating_add(n);
            search.backtrack.push(x);
            search.exit_level = false;
            let level = search.backtrack.len();
            if search.max_level < level {
                search.max_level = level;
            }
            proof {
                let f = Frame { item: i as int, row: x as int };
                let cost = others_cost(l, flat(l, frames).push(i as int), x as int);
                search.frames@ = frames.push(f);
                search.exact@ = (
                    before.visited,
                    before.updates + cost,
                    before.degree,
                    larger(before.depth, frames.len() + 1),
                );
                lemma_path_push(l, frames, f);
                assert(flat(l, frames).push(i as int) + tops(l, l.others(x as int)) =~= flat(
                    l,
                    frames,
                ) + cyc(l, x as int));
            }
        }
    }

    /// Chooses an item on a new level, covers it, and tries the first cell
    /// of its column.
    #[verifier::rlimit(40)]
    fn forward(&mut self, search: &mut Search)
        requires
            old(search).sound(old(self)),
            !old(search).stage().done,
            old(self).state().items[0].right != 0,
        ensures
            final(search).sound(final(self)),
            final(search).same_side(old(search)),
            final(search).stage() == step(old(search).layout(), old(search).stage()),
    {
        let ghost l = search.layout();
        let ghost before = search.stage();
        let ghost frames = before.frames;
        let ghost cov = self.state().cov;
        proof {
            lemma_solved(l, self.state());
            lemma_step_forward(l, before);
        }
        search.visited_nodes = search.visited_nodes.saturating_add(1);
        let (i, min_length) = self.choose_item();
        if search.max_degree < min_length {
            search.max_degree = min_length;
        }
        proof {
            lemma_cover_cost(l, self.state(), i as int);
        }
        let n = self.cover(i);
        search.update_count = search.update_count.saturating_add(n);
        let x = self.get_down(i);
        proof {
            let st = self.state();
            search.exact@ = (
                before.visited + 1,
                before.updates + cover_cost(l, cov, i as int),
                larger(before.degree, degree(l, cov, i as int)),
                before.depth,
            );
            assert(st.cov.last() == i);
            assert(st.cov.drop_last() =~= flat(l, frames));
            assert(in_list(l, st, i as int));
            lemma_gap_below(l, st, i as int);
            let bound = if x == i {
                l.size()
            } else {
                x as int
            };
            assert(free_gap(l, flat(l, frames), i as int, -1, bound)) by {
                assert forall|z: int| -1 < z < bound && l.is_cell(z) && l.top(z) == i implies !live(
                    l,
                    flat(l, frames),
                    #[trigger] l.rows[z],
                ) by {
                    assert(i < z);
                }
            }
            lemma_first_free(l, flat(l, frames), i as int, -1, bound);
        }
        self.try_row(search, i, x);
    }

    /// The options tried, as a solution with the number `ordinal`.
    fn snapshot(&self, search: &Search, ordinal: usize) -> (r: Solution)
        requires
            self.wf(),
            self.layout() == search.layout(),
            stack_ok(search.stack(), search.stage().frames),
            path_ok(search.layout(), search.stage().frames),
            self.state().cov == flat(search.layout(), search.stage().frames),
        ensures
            r.ordinal == ordinal,
            stack_ok(r.rows@, search.stage().frames),
            lines_ok(search.layout(), search.stage().frames, r.lines@),
    {
        let ghost l = search.layout();
        let ghost frames = search.stage().frames;
        proof {
            self.lemma_size_fits();
        }
        let mut rows: Vec<usize> = Vec::new();
        let mut lines: Vec<String> = Vec::new();
        let mut t: usize = 0;
        while t < search.backtrack.len()
            invariant
                self.wf(),
                self.layout() == l,
                stack_ok(search.stack(), frames),
                path_ok(l, frames),
                self.state().cov == flat(l, frames),
                l == search.layout(),
                frames == search.stage().frames,
                l.size() <= isize::MAX,
                0 <= t <= frames.len(),
                rows@.len() == t,
                lines@.len() == t,
                forall|u: int| 0 <= u < t ==> (#[trigger] rows@[u]) == frames[u].row,
                forall|u: int| 0 <= u < t ==> (#[trigger] lines@[u])@ == line_text(l, frames, u),
            decreases frames.len() - t,
        {
            let x = search.backtrack[t];
            proof {
                assert(frames[t as int].row == x);
                lemma_line_text(l, self.state(), frames, t as int);
            }
            rows.push(x);
            lines.push(self.get_option_str(x));
            t += 1;
        }
        Solution { ordinal, rows, lines }
    }

    /// Counts the exact cover that the options tried form when no primary
    /// item is left uncovered, and shows it if it is to be shown.
    #[verifier::rlimit(40)]
    fn record(&self, search: &mut Search)
        requires
            old(search).sound(self),
            !old(search).stage().done,
        ensures
            final(search).sound(self),
            final(search).layout() == old(search).layout(),
            final(search).origin() == old(search).origin(),
            final(search).steps() == old(search).steps(),
            final(search).reports() == old(search).reports(),
            final(search).showing() == old(search).showing(),
            final(search).deadline() == old(search).deadline(),
            final(search).reporting() == old(search).reporting(),
            final(search).stage() == noted(old(search).stage()),
    {
        let ghost l = search.layout();
        let ghost before = search.stage();
        let ghost frames = before.frames;
        let ghost shown = search.shown();
        proof {
            lemma_depth(l, frames);
            lemma_cov_bounded(l, self.state());
            self.lemma_size_fits();
        }
        search.visited_nodes = search.visited_nodes.saturating_add(1);
        let level = search.backtrack.len();
        let deeper = level.saturating_add(1);
        if search.max_level < deeper {
            search.max_level = deeper;
        }
        if search.solution_count < usize::MAX {
            let n = search.solution_count + 1;
            if (search.show_first && n == 1) || (search.solution_interval > 0 && n
                % search.solution_interval == 0) {
                let sol = self.snapshot(search, n);
                proof {
                    assert(ordinals(shown.push(sol)) =~= ordinals(shown).push(n as int));
                }
                search.solutions.push(sol);
            }
            search.solution_count = n;
        }
        search.exit_level = true;
        proof {
            let paths = before.paths.push(frames);
            search.paths@ = paths;
            search.exact@ = (
                before.visited + 1,
                before.updates,
                before.degree,
                larger(before.depth, frames.len() + 1),
            );
            assert forall|k: int| 0 <= k < search.shown().len() implies {
                &&& 1 <= (#[trigger] search.shown()[k]).ordinal <= paths.len()
                &&& stack_ok(search.shown()[k].rows@, paths[search.shown()[k].ordinal - 1])
                &&& lines_ok(l, paths[search.shown()[k].ordinal - 1], search.shown()[k].lines@)
            } by {
                if k < shown.len() {
                    assert(search.shown()[k] == shown[k]);
                    assert(paths[shown[k].ordinal - 1] == before.paths[shown[k].ordinal - 1]);
                }
            }
        }
    }

    /// Comes back to the last level, uncovers the other items of the
    /// option tried there, and tries the next cell of the column.
    #[verifier::rlimit(40)]
    fn retreat(&mut self, search: &mut Search)
        requires
            old(search).sound(old(self)),
            old(search).stage().done,
            old(search).stage().frames.len() > 0,
        ensures
            final(search).sound(final(self)),
            final(search).same_side(old(search)),
            final(search).stage() == step(old(search).layout(), old(search).stage()),
    {
        let ghost l = search.layout();
        let ghost frames = search.stage().frames;
        let ghost f = frames.last();
        let ghost front = frames.drop_last();
        proof {
            lemma_step_back(l, search.stage());
            lemma_path_front(l, frames);
            lemma_others_free(l, flat(l, front), f.row);
            assert(flat(l, front).push(f.item) + tops(l, l.others(f.row)) =~= flat(l, front) + cyc(
                l,
                f.row,
            ));
            assert(frames[frames.len() - 1] == f);
        }
        let x = match search.backtrack.pop() {
            Some(x) => x,
            None => 0,
        };
        self.uncover_others(x, Ghost(flat(l, front).push(f.item)));
        let t = self.get_top(x);
        let i = t as usize;
        let x2 = self.get_down(x);
        proof {
            let st = self.state();
            search.frames@ = front;
            assert(st.cov.last() == f.item);
            assert(st.cov.drop_last() =~= flat(l, front));
            lemma_cell_facts(l, f.row);
            lemma_linked_last(l, st, f.row);
            assert(in_list(l, st, f.row));
            lemma_gap_below(l, st, f.row);
            lemma_first_free(l, flat(l, front), f.item, f.row, reach(l, st, f.row));
        }
        self.try_row(search, i, x2);
    }

    /// Takes one step of the search. Returns `true` when the search is
    /// over: it is back behind its first level, and the structure is as it
    /// was before the search.
    #[verifier::rlimit(40)]
    pub fn advance(&mut self, search: &mut Search) -> (done: bool)
        requires
            old(search).holds(old(self)),
        ensures
            final(search).holds(final(self)),
            final(search).layout() == old(search).layout(),
            final(search).origin() == old(search).origin(),
            final(search).reports() == old(search).reports(),
            final(search).showing() == old(search).showing(),
            final(search).deadline() == old(search).deadline(),
            final(search).reporting() == old(search).reporting(),
            final(search).steps() == old(search).steps() + 1,
            final(search).stage() == step(old(search).layout(), old(search).stage()),
            !done ==> 0 <= final(search).budget() < old(search).budget(),
            done ==> over(final(search).stage()),
    {
        let ghost l = search.layout();
        let ghost before = search.stage();
        proof {
            lemma_solved(l, self.state());
            lemma_progress(l, search.steps());
            search.steps@ = search.steps@ + 1;
        }
        let check_exit = search.exit_level;
        if !check_exit && self.get_right(0) != 0 {
            self.forward(search);
            return false;
        }
        if !check_exit {
            proof {
                lemma_step_noted(l, before);
            }
            self.record(search);
        }
        if search.backtrack.len() == 0 {
            proof {
                lemma_step_back(l, search.stage());
            }
            return true;
        }
        self.retreat(search);
        false
    }

    /// Makes a progress report: for each level, where the cell tried
    /// stands in its column and how large the column is. The next report
    /// is due one interval later.
    fn sample(&self, search: &mut Search, elapsed_secs: u64)
        requires
            old(search).sound(self),
        ensures
            final(search).sound(self),
            final(search).layout() == old(search).layout(),
            final(search).origin() == old(search).origin(),
            final(search).stage() == old(search).stage(),
            final(search).steps() == old(search).steps(),
            final(search).showing() == old(search).showing(),
            final(search).deadline() == old(search).deadline(),
            final(search).reporting() == (
                old(search).reporting().0,
                old(search).reporting().1.saturating_add(old(search).reporting().0),
            ),
            final(search).reports() == old(search).reports().push(final(search).reports().last()),
            sampled(
                self.layout(),
                self.state(),
                old(search).stage().frames,
                old(search).count(),
                elapsed_secs,
                final(search).reports().last(),
            ),
    {
        let ghost frames = search.stage().frames;
        let ghost before = search.reports();
        let mut branches: Vec<Branch> = Vec::new();
        let mut t: usize = 0;
        while t < search.backtrack.len()
            invariant
                search.sound(self),
                *search == *old(search),
                frames == search.stage().frames,
                0 <= t <= frames.len(),
                branches@.len() == t,
                forall|lv: int|
                    0 <= lv < t ==> {
                        &&& (#[trigger] branches@[lv]).position == position_of(
                            self.layout(),
                            self.state(),
                            frames[lv].row,
                        )
                        &&& branches@[lv].length == self.state().items[frames[lv].item].length
                    },
            decreases frames.len() - t,
        {
            let x = search.backtrack[t];
            proof {
                assert(frames[t as int].row == x);
            }
            let (position, length) = self.get_option_position(x);
            branches.push(Branch { position, length });
            t += 1;
        }
        search.progress.push(
            Progress { elapsed_secs, solution_count: search.solution_count, branches },
        );
        search.time_threshold = search.time_threshold.saturating_add(search.report_delta);
        proof {
            assert(search.reports() =~= before.push(search.reports().last()));
        }
    }

    /// Takes one step of the search, given the seconds that have passed
    /// since it began. If the time allowed has run out, nothing is done. If
    /// a progress report is due, it is made before the step.
    #[verifier::rlimit(40)]
    pub fn tick(&mut self, search: &mut Search, elapsed_secs: u64) -> (r: Tick)
        requires
            old(search).holds(old(self)),
        ensures
            final(search).holds(final(self)),
            final(search).layout() == old(search).layout(),
            final(search).origin() == old(search).origin(),
            final(search).showing() == old(search).showing(),
            final(search).deadline() == old(search).deadline(),
            (r == Tick::TimedOut) <==> (old(search).deadline() matches Some(t) && elapsed_secs
                >= t),
            r == Tick::TimedOut ==> *final(self) == *old(self) && *final(search) == *old(search),
            r == Tick::Running ==> 0 <= final(search).budget() < old(search).budget(),
            r == Tick::Finished ==> over(final(search).stage()),
            r != Tick::TimedOut ==> final(search).steps() == old(search).steps() + 1
                && final(search).stage() == step(old(search).layout(), old(search).stage()),
            r != Tick::TimedOut && elapsed_secs < old(search).reporting().1 ==> {
                &&& final(search).reports() == old(search).reports()
                &&& final(search).reporting() == old(search).reporting()
            },
            r != Tick::TimedOut && elapsed_secs >= old(search).reporting().1 ==> {
                &&& final(search).reports() == old(search).reports().push(
                    final(search).reports().last(),
                )
                &&& final(search).reporting() == (
                    old(search).reporting().0,
                    old(search).reporting().1.saturating_add(old(search).reporting().0),
                )
                &&& sampled(
                    old(self).layout(),
                    old(self).state(),
                    old(search).stage().frames,
                    old(search).count(),
                    elapsed_secs,
                    final(search).reports().last(),
                )
            },
    {
        match search.timeout {
            Some(t) => {
                if elapsed_secs >= t {
                    return Tick::TimedOut;
                }
            },
            None => {},
        }
        if elapsed_secs >= search.time_threshold {
            self.sample(search, elapsed_secs);
        }
        if self.advance(search) {
            Tick::Finished
        } else {
            Tick::Running
        }
    }

    /// Searches for all exact covers. Returns the number found with the
    /// other counters, the time taken, and the solutions that `config`
    /// asks to be shown. The search is abandoned when the time that
    /// `config` allows has run out.
    #[verifier::rlimit(40)]
    pub fn dance(&mut self, config: &Config) -> (r: Report)
        requires
            old(self).wf(),
            old(self).idle(),
        ensures
            final(self).wf(),
            final(self).layout() == old(self).layout(),
            r.outcome == Outcome::TimedOut ==> (config@.timeout matches Some(t) && r.elapsed.secs
                >= t),
            config@.timeout is None ==> r.outcome == Outcome::Finished,
            config@.timeout == Some(0u64) ==> {
                &&& r.outcome == Outcome::TimedOut
                &&& r.solution_count == 0
                &&& r.visited_nodes == 0
                &&& r.update_count == 0
                &&& r.max_degree == 0
                &&& r.max_level == 0
                &&& r.solutions@.len() == 0
                &&& r.progress@.len() == 0
                &&& final(self).state() == old(self).state()
            },
            exists|n: nat|
                r.tells(
                    old(self).layout(),
                    config@.show_first,
                    config@.solution_interval,
                    #[trigger] trace(old(self).layout(), n),
                ) && final(self).state().cov == flat(
                    old(self).layout(),
                    trace(old(self).layout(), n).frames,
                ) && (r.outcome == Outcome::Finished ==> over(trace(old(self).layout(), n))
                    && complete(old(self).layout(), trace(old(self).layout(), n).paths)),
            final(self).base() == old(self).state(),
            r.outcome == Outcome::Finished ==> {
                &&& final(self).state() == old(self).state()
                &&& final(self).tally().0 - old(self).tally().0 == final(self).tally().1
                    - old(self).tally().1
                &&& old(self).covers().finite()
                &&& r.solution_count == capped(old(self).covers().len() as int)
            },
            forall|k: int|
                0 <= k < r.solutions@.len() ==> is_cover(
                    old(self).layout().primary,
                    old(self).layout().options,
                    picked(old(self).layout(), (#[trigger] r.solutions@[k]).rows@),
                ),
            forall|j: int, k: int|
                0 <= j < k < r.solutions@.len() ==> picked(
                    old(self).layout(),
                    (#[trigger] r.solutions@[j]).rows@,
                ) != picked(old(self).layout(), (#[trigger] r.solutions@[k]).rows@),
    {
        let ghost l = self.layout();
        let ghost st0 = self.state();
        proof {
            self.lemma_idle_paired();
        }
        let start = Instant::now();
        let mut search = Search::new(self, config);
        loop
            invariant
                search.holds(self),
                search.layout() == l,
                search.origin() == st0,
                l == old(self).layout(),
                st0 == old(self).state(),
                old(self).tally().0 == old(self).tally().1,
                search.showing() == (config@.show_first, config@.solution_interval),
                search.deadline() == config@.timeout,
                config@.timeout == Some(0u64) ==> {
                    &&& search.count() == 0
                    &&& search.counters() == (0usize, 0usize, 0usize, 0usize)
                    &&& search.shown().len() == 0
                    &&& search.reports().len() == 0
                    &&& self.state() == st0
                },
            decreases search.budget(),
        {
            let now = read(&start);
            let t = self.tick(&mut search, now.secs);
            if t == Tick::Running {
                continue;
            }
            let ghost n = search.steps();
            let ghost s = search.stage();
            proof {
                lemma_trace_good(l, n);
                if t == Tick::Finished {
                    assert(s.frames =~= Seq::<Frame>::empty());
                    self.lemma_idle_paired();
                    lemma_search_complete(l, n);
                    lemma_count_covers(l.primary, l.options, covers_of(l, s.paths));
                }
            }
            let (outcome, time) = if t == Tick::Finished {
                (Outcome::Finished, read(&start))
            } else {
                (Outcome::TimedOut, now)
            };
            let r = search.report(outcome, time);
            proof {
                assert(r.tells(l, config@.show_first, config@.solution_interval, trace(l, n)));
                r.lemma_shown(l, config@.show_first, config@.solution_interval, s);
            }
            return r;
        }
    }
}

} // verus!
