use crate::error::InputError;
use crate::model::{
    cells_ready, col_cells, cols_ok, cover_cells, cover_state, fixed_ok, h_splice, h_unsplice,
    hide_cells, in_list, inv, lemma_before_first, lemma_block, lemma_cell_facts,
    lemma_col_cells_low, lemma_col_step_down, lemma_col_step_up, lemma_cover_keeps,
    lemma_cover_rows, lemma_h_neighbours, lemma_h_splice_keeps, lemma_hide_cells_keeps,
    lemma_hide_step, lemma_others_member, lemma_ready_prefix, lemma_rings_same, lemma_rows_at,
    lemma_top_sign, lemma_uncover_cover, name_ok, row_cells, splice, uncover_state, unsplice,
    Layout, State,
};
use crate::setup::{
    as_ints, close_one, empty_layout, extended, fresh, grow_one, grown, ids_ok,
    lemma_append_inv, lemma_extended_wf, lemma_fresh_inv, lemma_grow_close, lemma_grow_start,
    lemma_grow_step, lemma_index_of, lemma_options_bounded, resolve,
};
use crate::text::{lemma_words_len, slice_views, split_words, views, words};
use crate::utils::{Node, Record};
use std::collections::HashSet;
use vstd::prelude::*;

verus! {

/// An exact-cover instance as its user sees it: the item names, primary
/// items first, and the items of each option by number (the first item is
/// number 1).
pub struct Instance {
    pub primary: nat,
    pub secondary: nat,
    pub names: Seq<Seq<char>>,
    pub options: Seq<Seq<int>>,
}

/// The sparse matrix of an exact-cover instance with its toroidal links.
pub struct DancingLinks {
    item_header: Vec<Record>,
    node_list: Vec<Node>,
    primary: usize,
    secondary: usize,
    layout: Ghost<Layout>,
    linked: Ghost<Seq<bool>>,
    covered: Ghost<Seq<int>>,
    trail: Ghost<Seq<State>>,
    hidden: Ghost<int>,
    shown: Ghost<int>,
}

/// How many options the first `k` coverings on the trail have hidden
/// between them.
pub open spec fn pending(l: Layout, trail: Seq<State>, cov: Seq<int>, k: int) -> int
    decreases k,
{
    if k <= 0 {
        0
    } else {
        pending(l, trail, cov, k - 1) + col_cells(l, trail[k - 1], cov[k - 1], l.size()).len()
    }
}

/// The options hidden by the first coverings depend on those coverings
/// alone.
pub proof fn lemma_pending_same(
    l: Layout,
    ta: Seq<State>,
    ca: Seq<int>,
    tb: Seq<State>,
    cb: Seq<int>,
    k: int,
)
    requires
        forall|j: int| 0 <= j < k ==> ta[j] == tb[j] && ca[j] == cb[j],
    ensures
        pending(l, ta, ca, k) == pending(l, tb, cb, k),
    decreases k,
{
    if k > 0 {
        lemma_pending_same(l, ta, ca, tb, cb, k - 1);
    }
}

/// The `k`-th covering on the trail started from a sound state in which its
/// item was uncovered, and led to the state that follows it.
pub open spec fn covering_ok(l: Layout, trail: Seq<State>, st: State, k: int) -> bool {
    let next = if k + 1 < trail.len() {
        trail[k + 1]
    } else {
        st
    };
    &&& inv(l, trail[k])
    &&& 1 <= st.cov[k] <= l.count
    &&& !trail[k].cov.contains(st.cov[k])
    &&& next == cover_state(l, trail[k], st.cov[k])
}

impl View for DancingLinks {
    type V = Instance;

    open spec fn view(&self) -> Instance {
        Instance {
            primary: self.layout().primary as nat,
            secondary: (self.layout().count - self.layout().primary) as nat,
            names: self.layout().names,
            options: self.layout().options,
        }
    }
}

/// Looks for the first item called `name` among the items `1..=count`.
pub fn find_name(items: &Vec<Record>, count: usize, name: &String) -> (r: Option<usize>)
    requires
        count < items@.len(),
        forall|j: int| 1 <= j <= count ==> (#[trigger] items@[j]).name is Some,
    ensures
        match r {
            Some(k) => {
                &&& 1 <= k <= count
                &&& items@[k as int].name->0@ == name@
                &&& forall|j: int| 1 <= j < k ==> (#[trigger] items@[j]).name->0@ != name@
            },
            None => forall|j: int| 1 <= j <= count ==> (#[trigger] items@[j]).name->0@ != name@,
        },
{
    let len = items.len();
    let mut k: usize = 1;
    while k <= count
        invariant
            1 <= k <= count + 1,
            count < len,
            count < items@.len(),
            forall|j: int| 1 <= j <= count ==> (#[trigger] items@[j]).name is Some,
            forall|j: int| 1 <= j < k ==> (#[trigger] items@[j]).name->0@ != name@,
        decreases count + 1 - k,
    {
        match &items[k].name {
            Some(s) => {
                if *s == *name {
                    return Some(k);
                }
            },
            None => {},
        }
        k += 1;
    }
    None
}

/// Once a prefix of the words is refused, so is the whole option, for the
/// same reason.
pub proof fn lemma_resolve_err(names: Seq<Seq<char>>, ws: Seq<Seq<char>>, t: int)
    requires
        0 <= t <= ws.len(),
        resolve(names, ws.take(t)) is Err,
    ensures
        resolve(names, ws) == resolve(names, ws.take(t)),
    decreases ws.len() - t,
{
    if t < ws.len() {
        assert(ws.take(t + 1).drop_last() =~= ws.take(t));
        lemma_resolve_err(names, ws, t + 1);
    } else {
        assert(ws.take(t) =~= ws);
    }
}

impl DancingLinks {
    /// The names of the items declared so far, while the items are still
    /// being declared.
    pub closed spec fn declared(&self) -> Seq<Seq<char>> {
        Seq::new((self.item_header@.len() - 1) as nat, |k: int| self.item_header@[k + 1].name->0@)
    }

    /// The root and the items declared so far stand in a row, each linked
    /// to the positions beside it; the trailing sentinel is still missing.
    pub closed spec fn partial(&self) -> bool {
        let k = self.item_header@.len() - 1;
        &&& k >= 0
        &&& self.node_list@.len() == k + 1
        &&& self.item_header@[0] == (Record {
            name: None,
            length: 0,
            left: self.primary,
            right: 1,
        })
        &&& self.node_list@[0] == (Node { top: 0, up: 0, down: 0 })
        &&& forall|j: int|
            1 <= j <= k ==> {
                &&& (#[trigger] self.item_header@[j]).name is Some
                &&& self.item_header@[j].length == 0
                &&& self.item_header@[j].left == j - 1
                &&& self.item_header@[j].right == j + 1
            }
        &&& forall|j: int|
            1 <= j <= k ==> #[trigger] self.node_list@[j] == (Node {
                top: 0,
                up: j as usize,
                down: j as usize,
            })
        &&& self.declared().no_duplicates()
    }

    /// The two counters as they were set when the structure was created.
    pub closed spec fn limits(&self) -> (int, int) {
        (self.primary as int, self.secondary as int)
    }

    /// Builds the structure for the given items, primary ones first, with
    /// no option yet. Fails if two items have the same name.
    #[verifier::rlimit(40)]
    pub fn new(primary_items: &[&str], secondary_items: &[&str]) -> (r: Result<Self, InputError>)
        requires
            primary_items@.len() + secondary_items@.len() + 2 <= isize::MAX,
        ensures
            match r {
                Ok(d) => {
                    &&& d.wf()
                    &&& d.idle()
                    &&& d.state().nodes.len() == primary_items@.len() + secondary_items@.len() + 2
                    &&& d@ == (Instance {
                        primary: primary_items@.len(),
                        secondary: secondary_items@.len(),
                        names: slice_views(primary_items@) + slice_views(secondary_items@),
                        options: Seq::empty(),
                    })
                    &&& (slice_views(primary_items@) + slice_views(
                        secondary_items@,
                    )).no_duplicates()
                },
                Err(e) => {
                    &&& e == InputError::DuplicateItem
                    &&& !(slice_views(primary_items@) + slice_views(
                        secondary_items@,
                    )).no_duplicates()
                },
            },
    {
        let n1 = primary_items.len();
        let n2 = secondary_items.len();
        let n = n1 + n2;
        let ghost names = slice_views(primary_items@) + slice_views(secondary_items@);
        let mut dlx = DancingLinks {
            item_header: Vec::with_capacity(n + 2),
            node_list: Vec::with_capacity(n + 2),
            primary: n1,
            secondary: n2,
            layout: Ghost(empty_layout(n1 as int, names)),
            linked: Ghost(Seq::new((n + 2) as nat, |x: int| false)),
            covered: Ghost(Seq::empty()),
            trail: Ghost(Seq::empty()),
            hidden: Ghost(0),
            shown: Ghost(0),
        };
        dlx.item_header.push(Record::new_unnamed(n1, 1));
        dlx.node_list.push(Node::new_spacer());
        proof {
            assert(dlx.declared() =~= names.take(0));
        }
        let mut k: usize = 0;
        while k < n1
            invariant
                n1 == primary_items@.len(),
                n2 == secondary_items@.len(),
                n == n1 + n2,
                n + 2 <= isize::MAX,
                names == slice_views(primary_items@) + slice_views(secondary_items@),
                0 <= k <= n1,
                dlx.partial(),
                dlx.limits() == (n1 as int, n2 as int),
                dlx.declared() == names.take(k as int),
                dlx.layout() == empty_layout(n1 as int, names),
                dlx.trail().len() == 0,
                dlx.tally() == (0int, 0int),
                dlx.state().cov.len() == 0,
                dlx.state().linked == Seq::new((n + 2) as nat, |x: int| false),
            decreases n1 - k,
        {
            match dlx.add_item(primary_items[k]) {
                Ok(()) => {},
                Err(e) => {
                    proof {
                        let m = k as int;
                        let front = names.take(m);
                        assert(names[m] == primary_items@[m]@);
                        let t = choose|t: int| 0 <= t < front.len() && front[t] == names[m];
                        assert(names[t] == names[m]);
                    }
                    return Err(e);
                },
            }
            proof {
                assert(names.take(k as int).push(primary_items@[k as int]@) =~= names.take(k + 1));
            }
            k += 1;
        }
        let mut k: usize = 0;
        while k < n2
            invariant
                n1 == primary_items@.len(),
                n2 == secondary_items@.len(),
                n == n1 + n2,
                n + 2 <= isize::MAX,
                names == slice_views(primary_items@) + slice_views(secondary_items@),
                0 <= k <= n2,
                dlx.partial(),
                dlx.limits() == (n1 as int, n2 as int),
                dlx.declared() == names.take(n1 + k),
                dlx.layout() == empty_layout(n1 as int, names),
                dlx.trail().len() == 0,
                dlx.tally() == (0int, 0int),
                dlx.state().cov.len() == 0,
                dlx.state().linked == Seq::new((n + 2) as nat, |x: int| false),
            decreases n2 - k,
        {
            match dlx.add_item(secondary_items[k]) {
                Ok(()) => {},
                Err(e) => {
                    proof {
                        let m = n1 + k;
                        let front = names.take(m);
                        assert(names[m] == secondary_items@[k as int]@);
                        let t = choose|t: int| 0 <= t < front.len() && front[t] == names[m];
                        assert(names[t] == names[m]);
                    }
                    return Err(e);
                },
            }
            proof {
                assert(names.take(n1 + k).push(secondary_items@[k as int]@) =~= names.take(
                    n1 + k + 1,
                ));
            }
            k += 1;
        }
        let ghost decl = dlx.declared();
        let ghost early = dlx.state();
        proof {
            assert(names.take(n as int) =~= names);
            assert(early.items.len() == n + 1);
        }
        dlx.item_header.push(Record::new_unnamed(n, n1 + 1));
        dlx.node_list.push(Node::new_spacer());
        dlx.item_header[n1].right = 0;
        dlx.item_header[n1 + 1].left = n + 1;
        proof {
            let l = dlx.layout();
            let st = dlx.state();
            assert forall|j: int| 0 <= j < n + 2 implies name_ok(
                l,
                j,
                (#[trigger] st.items[j]).name,
            ) && st.items[j].length == 0 by {
                if 1 <= j <= n {
                    assert(names[j - 1] == decl[j - 1]);
                    assert(st.items[j].name == early.items[j].name);
                }
            }
            assert(fresh(l, st));
            lemma_fresh_inv(n1 as int, names, st);
        }
        Ok(dlx)
    }

    /// Declares one more item. Fails if an item of that name exists.
    fn add_item(&mut self, item: &str) -> (r: Result<(), InputError>)
        requires
            old(self).partial(),
            old(self).declared().len() + 2 <= isize::MAX,
        ensures
            final(self).layout() == old(self).layout(),
            final(self).trail() == old(self).trail(),
            final(self).tally() == old(self).tally(),
            final(self).limits() == old(self).limits(),
            final(self).state().cov == old(self).state().cov,
            final(self).state().linked == old(self).state().linked,
            match r {
                Ok(()) => {
                    &&& final(self).partial()
                    &&& final(self).declared() == old(self).declared().push(item@)
                },
                Err(e) => {
                    &&& e == InputError::DuplicateItem
                    &&& old(self).declared().contains(item@)
                },
            },
    {
        let name = item.to_owned();
        let i = self.get_list_len();
        let ghost before = self.declared();
        match find_name(&self.item_header, i - 1, &name) {
            Some(k) => {
                proof {
                    assert(before[k - 1] == item@);
                }
                return Err(InputError::DuplicateItem);
            },
            None => {},
        }
        self.item_header.push(Record::new(item, i));
        self.node_list.push(Node::new_header(i));
        proof {
            assert(self.declared() =~= before.push(item@));
            assert forall|a: int, b: int|
                0 <= a < self.declared().len() && 0 <= b < self.declared().len() && a
                    != b implies self.declared()[a] != self.declared()[b] by {
                if a < before.len() && b < before.len() {
                    assert(before[a] != before[b]);
                } else if a < before.len() {
                    assert(old(self).item_header@[a + 1].name->0@ != name@);
                } else {
                    assert(old(self).item_header@[b + 1].name->0@ != name@);
                }
            }
        }
        Ok(())
    }

    /// The fixed shape of the instance.
    pub closed spec fn layout(&self) -> Layout {
        self.layout@
    }

    /// The links and counts as they stand, with the items covered so far.
    pub closed spec fn state(&self) -> State {
        State {
            items: self.item_header@,
            nodes: self.node_list@,
            linked: self.linked@,
            cov: self.covered@,
        }
    }

    /// For each covering that is still in force, the state it started from.
    pub closed spec fn trail(&self) -> Seq<State> {
        self.trail@
    }

    /// How often an option was hidden, and how often one was unhidden,
    /// since the structure was made.
    pub closed spec fn tally(&self) -> (int, int) {
        (self.hidden@, self.shown@)
    }

    /// The two counters agree with the layout.
    pub closed spec fn sized(&self) -> bool {
        &&& self.primary == self.layout@.primary
        &&& self.primary + self.secondary == self.layout@.count
        &&& self.node_list@.len() <= isize::MAX
    }

    /// The structure is sound: the arrays match the layout, every column and
    /// both rings are consistent, and every covering in force can be undone.
    pub open spec fn wf(&self) -> bool {
        &&& self.layout().wf()
        &&& self.sized()
        &&& inv(self.layout(), self.state())
        &&& self.trail().len() == self.state().cov.len()
        &&& self.tally().0 - self.tally().1 == pending(
            self.layout(),
            self.trail(),
            self.state().cov,
            self.trail().len() as int,
        )
        &&& forall|k: int|
            0 <= k < self.trail().len() ==> #[trigger] covering_ok(
                self.layout(),
                self.trail(),
                self.state(),
                k,
            )
    }

    /// The arena is small enough for every position to be written as a
    /// signed number.
    pub proof fn lemma_size_fits(&self)
        requires
            self.sized(),
        ensures
            self.state().nodes.len() <= isize::MAX,
    {
    }

    /// Nothing is covered.
    pub open spec fn idle(&self) -> bool {
        self.state().cov.len() == 0
    }

    /// While nothing is covered, options were unhidden as often as they
    /// were hidden.
    pub proof fn lemma_idle_paired(&self)
        requires
            self.wf(),
            self.idle(),
        ensures
            self.tally().0 == self.tally().1,
    {
    }

    /// The state to which uncovering everything leads back.
    pub open spec fn base(&self) -> State {
        if self.trail().len() > 0 {
            self.trail()[0]
        } else {
            self.state()
        }
    }

    /// Number of primary items.
    pub fn get_primary(&self) -> (r: usize)
        requires
            self.wf(),
        ensures
            r == self@.primary,
    {
        self.primary
    }

    /// Number of secondary items.
    pub fn get_secondary(&self) -> (r: usize)
        requires
            self.wf(),
        ensures
            r == self@.secondary,
    {
        self.secondary
    }

    /// Number of items.
    pub fn get_item_count(&self) -> (r: usize)
        requires
            self.wf(),
        ensures
            r == self@.primary + self@.secondary,
    {
        let ghost n = self.item_header.len();
        self.primary + self.secondary
    }

    /// Number of options.
    pub fn get_option_count(&self) -> (r: usize)
        requires
            self.wf(),
        ensures
            r == self@.options.len(),
    {
        proof {
            lemma_options_bounded(self.layout());
        }
        let last = self.get_list_len() - 1;
        (-self.get_top(last)) as usize
    }

    /// Appends the option whose items `option_str` names, separated by
    /// white space. Fails, and changes nothing, if a word is no item's name
    /// or names an item for the second time.
    #[verifier::rlimit(40)]
    pub fn add_option(&mut self, option_str: &str) -> (r: Result<(), InputError>)
        requires
            old(self).wf(),
            old(self).idle(),
            old(self).state().nodes.len() + option_str@.len() + 1 <= isize::MAX,
        ensures
            final(self).wf(),
            final(self).idle(),
            match r {
                Ok(()) => {
                    &&& resolve(old(self)@.names, words(option_str@)) is Ok
                    &&& final(self)@ == (Instance {
                        options: old(self)@.options.push(
                            resolve(old(self)@.names, words(option_str@))->Ok_0,
                        ),
                        ..old(self)@
                    })
                    &&& final(self).state().nodes.len() == old(self).state().nodes.len() + resolve(
                        old(self)@.names,
                        words(option_str@),
                    )->Ok_0.len() + 1
                },
                Err(e) => {
                    &&& resolve(old(self)@.names, words(option_str@)) == Err::<Seq<int>, _>(e)
                    &&& final(self)@ == old(self)@
                    &&& final(self).state() == old(self).state()
                },
            },
    {
        let ghost l = self.layout();
        let ghost st0 = self.state();
        let ghost names = l.names;
        proof {
            lemma_words_len(option_str@);
        }
        let ws = split_words(option_str);
        let ghost wv = views(ws@);
        let count = self.get_item_count();
        let mut ids: Vec<usize> = Vec::new();
        let mut option_items: HashSet<usize> = HashSet::new();
        let mut t: usize = 0;
        proof {
            broadcast use vstd::std_specs::hash::group_hash_axioms;

            assert(wv.take(0) =~= Seq::<Seq<char>>::empty());
            assert(as_ints(ids@) =~= Seq::<int>::empty());
        }
        while t < ws.len()
            invariant
                self.wf(),
                self.layout() == l,
                self.state() == st0,
                names == l.names,
                count == l.count,
                wv == views(ws@),
                wv == words(option_str@),
                l == old(self).layout(),
                st0 == old(self).state(),
                st0.cov.len() == 0,
                0 <= t <= ws.len(),
                ids@.len() == t,
                forall|i: usize| option_items@.contains(i) <==> ids@.contains(i),
                resolve(names, wv.take(t as int)) == Ok::<_, InputError>(as_ints(ids@)),
                ids_ok(l, as_ints(ids@)),
            decreases ws.len() - t,
        {
            let ghost front = wv.take(t as int);
            let ghost w = wv[t as int];
            proof {
                broadcast use vstd::std_specs::hash::group_hash_axioms;

                assert(wv.take(t + 1).drop_last() =~= front);
                assert(wv.take(t + 1).last() == w);
                assert forall|j: int| 1 <= j <= count implies (
                #[trigger] self.item_header@[j]).name is Some
                    && self.item_header@[j].name->0@ == names[j - 1] by {
                    assert(name_ok(l, j, st0.items[j].name));
                }
            }
            match find_name(&self.item_header, count, &ws[t]) {
                None => {
                    proof {
                        if names.contains(w) {
                            let k = choose|k: int| 0 <= k < names.len() && names[k] == w;
                            assert(self.item_header@[k + 1].name->0@ == names[k]);
                        }
                        assert(resolve(names, wv.take(t + 1)) == Err::<Seq<int>, _>(
                            InputError::UnknownItem,
                        ));
                        assert(wv.take(ws.len() as int) =~= wv);
                        lemma_resolve_err(names, wv, t + 1);
                    }
                    return Err(InputError::UnknownItem);
                },
                Some(i) => {
                    proof {
                        lemma_index_of(names, i - 1);
                        assert(names[i - 1] == w);
                    }
                    if option_items.contains(&i) {
                        proof {
                            let k = choose|k: int| 0 <= k < ids@.len() && ids@[k] == i;
                            assert(as_ints(ids@)[k] == i);
                            assert(resolve(names, wv.take(t + 1)) == Err::<Seq<int>, _>(
                                InputError::DuplicateItemInOption,
                            ));
                            lemma_resolve_err(names, wv, t + 1);
                        }
                        return Err(InputError::DuplicateItemInOption);
                    }
                    proof {
                        let before = as_ints(ids@);
                        assert(!before.contains(i as int)) by {
                            if before.contains(i as int) {
                                let k = choose|k: int| 0 <= k < before.len() && before[k] == i;
                                assert(ids@[k] == i);
                            }
                        }
                        assert(as_ints(ids@.push(i)) =~= before.push(i as int));
                        assert forall|j: usize|
                            option_items@.insert(i).contains(j) <==> ids@.push(i).contains(j) by {
                            if ids@.contains(j) {
                                let k = choose|k: int| 0 <= k < ids@.len() && ids@[k] == j;
                                assert(ids@.push(i)[k] == j);
                            }
                            if j == i {
                                assert(ids@.push(i)[ids@.len() as int] == i);
                            }
                            if ids@.push(i).contains(j) {
                                let k = choose|k: int|
                                    0 <= k < ids@.push(i).len() && ids@.push(i)[k] == j;
                                if k < ids@.len() {
                                    assert(ids@[k] == j);
                                }
                            }
                        }
                        assert(before.push(i as int).no_duplicates()) by {
                            let after = before.push(i as int);
                            assert forall|a: int, b: int|
                                0 <= a < after.len() && 0 <= b < after.len() && a
                                    != b implies after[a] != after[b] by {
                                if a < before.len() {
                                    assert(before.contains(after[a]));
                                }
                                if b < before.len() {
                                    assert(before.contains(after[b]));
                                }
                            }
                        }
                    }
                    option_items.insert(i);
                    ids.push(i);
                },
            }
            t += 1;
        }
        let ghost iv = as_ints(ids@);
        let ghost k = iv.len() as int;
        proof {
            assert(wv.take(ws.len() as int) =~= wv);
            lemma_grow_start(l, st0, iv);
        }
        let spacer = self.get_list_len() - 1;
        let mut s: usize = 0;
        while s < ids.len()
            invariant
                l.wf(),
                inv(l, st0),
                st0.cov.len() == 0,
                iv == as_ints(ids@),
                k == iv.len(),
                ids_ok(l, iv),
                l.size() + k + 1 <= isize::MAX,
                self.layout() == l,
                self.trail() == old(self).trail(),
                self.tally() == old(self).tally(),
                self.sized() == old(self).sized(),
                0 <= s <= ids.len(),
                grown(l, st0, iv, s as int, self.state()),
                self.state().linked == st0.linked,
                spacer == l.size() - 1,
            decreases ids.len() - s,
        {
            let ghost cur = self.state();
            proof {
                lemma_grow_step(l, st0, iv, s as int, cur);
            }
            let i = ids[s];
            let u = self.get_up(i);
            let j = self.get_list_len();
            self.add_node(i);
            self.node_list.push(Node::new(i as isize, u, i));
            self.set_down(u, j);
            self.set_up(i, j);
            proof {
                assert(self.state().nodes =~= grow_one(cur, i as int).nodes);
                assert(self.state() == grow_one(cur, i as int));
            }
            s += 1;
        }
        let ghost mid = self.state();
        proof {
            lemma_grow_close(l, st0, iv, mid);
        }
        let top = self.get_top(spacer) - 1;
        self.node_list.push(Node::new(top, spacer + 1, 0));
        let last = self.get_list_len() - 2;
        self.set_down(spacer, last);
        proof {
            self.linked@ = self.linked@ + Seq::new((k + 1) as nat, |x: int| true);
            self.layout@ = extended(l, iv);
            assert(self.state().nodes =~= close_one(mid, l.size()).nodes);
            assert(self.state() == close_one(mid, l.size()));
            lemma_append_inv(l, st0, iv, self.state());
            lemma_extended_wf(l, iv);
        }
        Ok(())
    }

    /// Number of arena positions.
    pub fn get_list_len(&self) -> (r: usize)
        ensures
            r == self.state().nodes.len(),
    {
        self.node_list.len()
    }

    /// The record of item `i`.
    pub fn get_record(&self, i: usize) -> (r: &Record)
        requires
            i < self.state().items.len(),
        ensures
            *r == self.state().items[i as int],
    {
        &self.item_header[i]
    }

    /// The number of options that currently reach item `i`.
    pub fn get_length(&self, i: usize) -> (r: usize)
        requires
            i < self.state().items.len(),
        ensures
            r == self.state().items[i as int].length,
    {
        self.item_header[i].length
    }

    /// The left neighbour of item `i` in its ring.
    pub fn get_left(&self, i: usize) -> (r: usize)
        requires
            i < self.state().items.len(),
        ensures
            r == self.state().items[i as int].left,
    {
        self.item_header[i].left
    }

    /// The right neighbour of item `i` in its ring.
    pub fn get_right(&self, i: usize) -> (r: usize)
        requires
            i < self.state().items.len(),
        ensures
            r == self.state().items[i as int].right,
    {
        self.item_header[i].right
    }

    /// The tag of position `i`: the item of a cell, the negated ordinal of a
    /// spacer, zero otherwise.
    pub fn get_top(&self, i: usize) -> (r: isize)
        requires
            i < self.state().nodes.len(),
        ensures
            r == self.state().nodes[i as int].top,
    {
        self.node_list[i].top
    }

    /// Where position `i` points up.
    pub fn get_up(&self, i: usize) -> (r: usize)
        requires
            i < self.state().nodes.len(),
        ensures
            r == self.state().nodes[i as int].up,
    {
        self.node_list[i].up
    }

    /// Where position `i` points down.
    pub fn get_down(&self, i: usize) -> (r: usize)
        requires
            i < self.state().nodes.len(),
        ensures
            r == self.state().nodes[i as int].down,
    {
        self.node_list[i].down
    }

    /// Makes `l` the left neighbour of item `i`.
    fn set_left(&mut self, i: usize, l: usize)
        requires
            i < old(self).state().items.len(),
        ensures
            final(self).layout() == old(self).layout(),
            final(self).trail() == old(self).trail(),
            final(self).tally() == old(self).tally(),
            final(self).state() == (State {
                items: old(self).state().items.update(
                    i as int,
                    Record { left: l, ..old(self).state().items[i as int] },
                ),
                ..old(self).state()
            }),
            final(self).sized() == old(self).sized(),
    {
        self.item_header[i].left = l;
    }

    /// Makes `r` the right neighbour of item `i`.
    fn set_right(&mut self, i: usize, r: usize)
        requires
            i < old(self).state().items.len(),
        ensures
            final(self).layout() == old(self).layout(),
            final(self).trail() == old(self).trail(),
            final(self).tally() == old(self).tally(),
            final(self).state() == (State {
                items: old(self).state().items.update(
                    i as int,
                    Record { right: r, ..old(self).state().items[i as int] },
                ),
                ..old(self).state()
            }),
            final(self).sized() == old(self).sized(),
    {
        self.item_header[i].right = r;
    }

    /// Makes position `i` point up to `u`.
    fn set_up(&mut self, i: usize, u: usize)
        requires
            i < old(self).state().nodes.len(),
        ensures
            final(self).layout() == old(self).layout(),
            final(self).trail() == old(self).trail(),
            final(self).tally() == old(self).tally(),
            final(self).state() == (State {
                nodes: old(self).state().nodes.update(
                    i as int,
                    Node { up: u, ..old(self).state().nodes[i as int] },
                ),
                ..old(self).state()
            }),
            final(self).sized() == old(self).sized(),
    {
        self.node_list[i].up = u;
    }

    /// Makes position `i` point down to `d`.
    fn set_down(&mut self, i: usize, d: usize)
        requires
            i < old(self).state().nodes.len(),
        ensures
            final(self).layout() == old(self).layout(),
            final(self).trail() == old(self).trail(),
            final(self).tally() == old(self).tally(),
            final(self).state() == (State {
                nodes: old(self).state().nodes.update(
                    i as int,
                    Node { down: d, ..old(self).state().nodes[i as int] },
                ),
                ..old(self).state()
            }),
            final(self).sized() == old(self).sized(),
    {
        self.node_list[i].down = d;
    }

    /// Counts one more cell in the column of item `i`.
    fn add_node(&mut self, i: usize)
        requires
            i < old(self).state().items.len(),
            old(self).state().items[i as int].length < usize::MAX,
        ensures
            final(self).layout() == old(self).layout(),
            final(self).trail() == old(self).trail(),
            final(self).tally() == old(self).tally(),
            final(self).state() == (State {
                items: old(self).state().items.update(
                    i as int,
                    Record {
                        length: (old(self).state().items[i as int].length + 1) as usize,
                        ..old(self).state().items[i as int]
                    },
                ),
                ..old(self).state()
            }),
            final(self).sized() == old(self).sized(),
    {
        self.item_header[i].add_node();
    }

    /// Counts one cell less in the column of item `i`.
    fn remove_node(&mut self, i: usize)
        requires
            i < old(self).state().items.len(),
            old(self).state().items[i as int].length > 0,
        ensures
            final(self).layout() == old(self).layout(),
            final(self).trail() == old(self).trail(),
            final(self).tally() == old(self).tally(),
            final(self).state() == (State {
                items: old(self).state().items.update(
                    i as int,
                    Record {
                        length: (old(self).state().items[i as int].length - 1) as usize,
                        ..old(self).state().items[i as int]
                    },
                ),
                ..old(self).state()
            }),
            final(self).sized() == old(self).sized(),
    {
        self.item_header[i].remove_node();
    }

    /// Removes every other cell of the option of `p` from its column and
    /// returns how many cells that were.
    pub(crate) fn hide_row(&mut self, p: usize) -> (updates: usize)
        requires
            old(self).layout().wf(),
            fixed_ok(old(self).layout(), old(self).state()),
            cols_ok(old(self).layout(), old(self).state()),
            old(self).layout().is_cell(p as int),
            cells_ready(old(self).layout(), old(self).state(), old(self).layout().others(p as int)),
        ensures
            final(self).layout() == old(self).layout(),
            final(self).trail() == old(self).trail(),
            final(self).tally() == (old(self).tally().0 + 1, old(self).tally().1),
            final(self).sized() == old(self).sized(),
            final(self).state() == hide_cells(
                old(self).state(),
                old(self).layout().others(p as int),
            ),
            updates == old(self).layout().others(p as int).len(),
    {
        let ghost l = self.layout();
        let ghost st0 = self.state();
        let ghost cells = l.others(p as int);
        let ghost first = l.first(p as int);
        let ghost close = l.close(p as int);
        let ghost len = close - first;
        proof {
            lemma_cell_facts(l, p as int);
            lemma_others_member(l, p as int, 0);
            assert(cells.take(0) =~= Seq::<int>::empty());
        }
        let size = self.node_list.len();
        let mut updates: usize = 0;
        let mut q: usize = p + 1;
        let ghost mut k: int = 0;
        while q != p
            invariant
                l.wf(),
                size == l.size(),
                fixed_ok(l, st0),
                cols_ok(l, st0),
                l.is_cell(p as int),
                cells_ready(l, st0, cells),
                cells == l.others(p as int),
                cells.len() == len - 1,
                first == l.first(p as int),
                close == l.close(p as int),
                len == close - first,
                first <= p < close < l.size(),
                self.layout() == l,
                self.trail() == old(self).trail(),
                self.tally() == old(self).tally(),
                self.sized() == old(self).sized(),
                0 <= k <= cells.len(),
                self.state() == hide_cells(st0, cells.take(k)),
                updates == k,
                first <= q <= close,
                q > p ==> k == q - p - 1,
                q <= p ==> k == close - p - 1 + q - first,
            decreases 2 * (cells.len() - k) + if q > p { 1int } else { 0int },
        {
            proof {
                lemma_top_sign(l, q as int);
                lemma_cell_facts(l, p as int);
                lemma_ready_prefix(l, st0, cells, k);
                lemma_hide_cells_keeps(l, st0, cells.take(k));
                if q as int == close {
                    assert(l.is_spacer(q as int));
                } else {
                    lemma_block(l, p as int, q as int);
                    assert(cells[k] == q);
                    lemma_hide_step(l, st0, cells, k);
                }
            }
            let t = self.get_top(q);
            let u = self.get_up(q);
            let d = self.get_down(q);
            if t <= 0 {
                q = u;
            } else {
                updates += 1;
                self.set_down(u, d);
                self.set_up(d, u);
                self.remove_node(t as usize);
                proof {
                    self.linked@ = self.linked@.update(q as int, false);
                    k = k + 1;
                    assert(self.state() == splice(hide_cells(st0, cells.take(k - 1)), q as int));
                }
                q += 1;
            }
        }
        proof {
            assert(cells.take(k) =~= cells);
            self.hidden@ = self.hidden@ + 1;
        }
        updates
    }

    /// Puts every other cell of the option of `p` back into its column,
    /// walking the option the other way round than `hide_row` does.
    pub(crate) fn unhide(&mut self, p: usize, Ghost(prev): Ghost<State>)
        requires
            old(self).layout().wf(),
            fixed_ok(old(self).layout(), prev),
            cols_ok(old(self).layout(), prev),
            old(self).layout().is_cell(p as int),
            cells_ready(old(self).layout(), prev, old(self).layout().others(p as int)),
            old(self).state() == hide_cells(prev, old(self).layout().others(p as int)),
        ensures
            final(self).layout() == old(self).layout(),
            final(self).trail() == old(self).trail(),
            final(self).tally() == (old(self).tally().0, old(self).tally().1 + 1),
            final(self).sized() == old(self).sized(),
            final(self).state() == prev,
    {
        let ghost l = self.layout();
        let ghost cells = l.others(p as int);
        let ghost first = l.first(p as int);
        let ghost close = l.close(p as int);
        let ghost len = close - first;
        proof {
            lemma_cell_facts(l, p as int);
            lemma_others_member(l, p as int, 0);
            lemma_before_first(l, p as int);
            assert(cells.take(cells.len() as int) =~= cells);
            lemma_hide_cells_keeps(l, prev, cells);
        }
        let size = self.node_list.len();
        let mut q: usize = p - 1;
        let ghost mut m: int = cells.len() as int;
        while q != p
            invariant
                l.wf(),
                size == l.size(),
                fixed_ok(l, prev),
                cols_ok(l, prev),
                l.is_cell(p as int),
                cells_ready(l, prev, cells),
                cells == l.others(p as int),
                cells.len() == len - 1,
                first == l.first(p as int),
                close == l.close(p as int),
                len == close - first,
                l.count + 2 <= first <= p < close < l.size(),
                self.layout() == l,
                self.trail() == old(self).trail(),
                self.tally() == old(self).tally(),
                self.sized() == old(self).sized(),
                0 <= m <= cells.len(),
                self.state() == hide_cells(prev, cells.take(m)),
                first - 1 <= q < close,
                q < p ==> m == len - 1 - (p - 1 - q),
                q >= p ==> m == q - p,
            decreases 2 * m + if q < p { 1int } else { 0int },
        {
            proof {
                lemma_top_sign(l, q as int);
                lemma_cell_facts(l, p as int);
                lemma_before_first(l, p as int);
                lemma_ready_prefix(l, prev, cells, m);
                lemma_hide_cells_keeps(l, prev, cells.take(m));
                if q as int == first - 1 {
                    assert(!l.is_cell(q as int));
                } else {
                    lemma_block(l, p as int, q as int);
                    assert(cells[m - 1] == q);
                    lemma_hide_step(l, prev, cells, m - 1);
                }
            }
            let t = self.get_top(q);
            let u = self.get_up(q);
            let d = self.get_down(q);
            if t <= 0 {
                q = d;
            } else {
                self.set_down(u, q);
                self.set_up(d, q);
                self.add_node(t as usize);
                proof {
                    self.linked@ = self.linked@.update(q as int, true);
                    assert(self.state() == unsplice(hide_cells(prev, cells.take(m)), q as int));
                    m = m - 1;
                }
                q -= 1;
            }
        }
        proof {
            assert(cells.take(0) =~= Seq::<int>::empty());
            self.shown@ = self.shown@ + 1;
        }
    }

    /// Covers item `i`: hides every option that names it and takes it out
    /// of its ring. Returns the number of links changed, the item's own
    /// removal counted as one.
    #[verifier::rlimit(40)]
    pub fn cover(&mut self, i: usize) -> (updates: usize)
        requires
            old(self).wf(),
            1 <= i <= old(self).layout().count,
            !old(self).state().cov.contains(i as int),
        ensures
            final(self).wf(),
            final(self).layout() == old(self).layout(),
            final(self).state() == cover_state(old(self).layout(), old(self).state(), i as int),
            final(self).state().cov == old(self).state().cov.push(i as int),
            final(self).trail() == old(self).trail().push(old(self).state()),
            final(self).tally() == (
                old(self).tally().0 + col_cells(
                    old(self).layout(),
                    old(self).state(),
                    i as int,
                    old(self).layout().size(),
                ).len() as int,
                old(self).tally().1,
            ),
            updates == 1 + cover_cells(old(self).layout(), old(self).state(), i as int).len(),
    {
        let ghost l = self.layout();
        let ghost st0 = self.state();
        let ghost rows = col_cells(l, st0, i as int, l.size());
        let ghost mut r: int = 0;
        proof {
            assert(in_list(l, st0, i as int));
            lemma_col_step_down(l, st0, i as int, i as int);
            lemma_col_cells_low(l, st0, i as int, i + 1);
            lemma_cover_rows(l, st0, i as int, 0);
            assert(rows.take(0) =~= Seq::<int>::empty());
            if st0.nodes[i as int].down > l.count {
                lemma_rows_at(l, st0, i as int, st0.nodes[i as int].down as int);
            }
        }
        let size = self.node_list.len();
        let mut updates: usize = 1;
        let mut p = self.get_down(i);
        while p != i
            invariant
                l.wf(),
                inv(l, st0),
                size == l.size(),
                1 <= i <= l.count,
                !st0.cov.contains(i as int),
                rows == col_cells(l, st0, i as int, l.size()),
                self.layout() == l,
                self.trail() == old(self).trail(),
                self.tally() == (old(self).tally().0 + r, old(self).tally().1),
                self.sized() == old(self).sized(),
                0 <= r <= rows.len(),
                self.state() == hide_cells(st0, row_cells(l, rows.take(r))),
                updates == 1 + row_cells(l, rows.take(r)).len(),
                p == i ==> r == rows.len(),
                p != i ==> r < rows.len() && rows[r] == p,
                0 <= p < l.size(),
            decreases rows.len() - r,
        {
            proof {
                lemma_cover_rows(l, st0, i as int, r);
                lemma_cover_rows(l, st0, i as int, r + 1);
            }
            let n = self.hide_row(p);
            updates += n;
            proof {
                let cur = self.state();
                assert(in_list(l, cur, p as int));
                lemma_cell_facts(l, p as int);
                lemma_col_step_down(l, cur, i as int, p as int);
                lemma_rows_at(l, st0, i as int, p as int);
                let d = cur.nodes[p as int].down as int;
                assert(col_cells(l, cur, i as int, p + 1) == col_cells(l, st0, i as int, p + 1));
                assert(col_cells(l, st0, i as int, p + 1).len() == r + 1);
                if d > l.count {
                    assert(col_cells(l, cur, i as int, d) == col_cells(l, st0, i as int, d));
                    lemma_rows_at(l, st0, i as int, d);
                } else {
                    assert(col_cells(l, cur, i as int, l.size()) == rows);
                }
                r = r + 1;
            }
            p = self.get_down(p);
        }
        proof {
            assert(rows.take(r) =~= rows);
            lemma_cover_rows(l, st0, i as int, r);
            let mid = self.state();
            lemma_rings_same(l, st0, mid);
            lemma_h_splice_keeps(l, mid, i as int);
            lemma_h_neighbours(l, mid, i as int);
        }
        let a = self.get_left(i);
        let b = self.get_right(i);
        self.set_right(a, b);
        self.set_left(b, a);
        proof {
            self.covered@ = self.covered@.push(i as int);
            self.trail@ = self.trail@.push(st0);
            lemma_cover_keeps(l, st0, i as int);
            assert(self.state() == cover_state(l, st0, i as int));
            let tr = self.trail();
            let st = self.state();
            lemma_pending_same(l, old(self).trail(), st0.cov, tr, st.cov, tr.len() - 1);
            assert forall|k: int| 0 <= k < tr.len() implies #[trigger] covering_ok(
                l,
                tr,
                st,
                k,
            ) by {
                if k < tr.len() - 1 {
                    assert(covering_ok(l, old(self).trail(), st0, k));
                    assert(tr[k] == old(self).trail()[k]);
                    assert(st.cov[k] == st0.cov[k]);
                    if k + 1 < tr.len() - 1 {
                        assert(tr[k + 1] == old(self).trail()[k + 1]);
                    }
                }
            }
        }
        updates
    }

    /// Uncovers item `i`, which must be the item covered last: puts it back
    /// into its ring and unhides the options that name it, last one first.
    #[verifier::rlimit(40)]
    pub fn uncover(&mut self, i: usize)
        requires
            old(self).wf(),
            old(self).state().cov.len() > 0,
            old(self).state().cov.last() == i,
        ensures
            final(self).wf(),
            final(self).layout() == old(self).layout(),
            final(self).state() == old(self).trail().last(),
            final(self).state() == uncover_state(old(self).layout(), old(self).state(), i as int),
            final(self).state().cov == old(self).state().cov.drop_last(),
            final(self).trail() == old(self).trail().drop_last(),
            final(self).tally() == (
                old(self).tally().0,
                old(self).tally().1 + col_cells(
                    old(self).layout(),
                    old(self).trail().last(),
                    i as int,
                    old(self).layout().size(),
                ).len() as int,
            ),
    {
        let ghost l = self.layout();
        let ghost st1 = self.state();
        let ghost top = self.trail().len() - 1;
        let ghost prev = self.trail()[top];
        let ghost rows = col_cells(l, prev, i as int, l.size());
        let ghost mid = hide_cells(prev, row_cells(l, rows));
        proof {
            assert(covering_ok(l, self.trail(), st1, top));
            assert(st1 == cover_state(l, prev, i as int));
            lemma_cover_keeps(l, prev, i as int);
            lemma_uncover_cover(l, prev, i as int);
            lemma_cover_rows(l, prev, i as int, rows.len() as int);
            assert(rows.take(rows.len() as int) =~= rows);
            lemma_rings_same(l, prev, mid);
            lemma_h_splice_keeps(l, mid, i as int);
            lemma_h_neighbours(l, mid, i as int);
            assert(st1 == h_splice(mid, i as int));
            assert(st1.cov.drop_last() =~= prev.cov);
        }
        let size = self.node_list.len();
        let a = self.get_left(i);
        let b = self.get_right(i);
        self.set_right(a, i);
        self.set_left(b, i);
        proof {
            self.covered@ = self.covered@.drop_last();
            self.trail@ = self.trail@.drop_last();
            assert(self.state() == h_unsplice(st1, i as int));
            assert(self.state() == mid);
            assert(in_list(l, mid, i as int));
            lemma_col_step_up(l, mid, i as int, i as int);
            if mid.nodes[i as int].up > l.count {
                lemma_rows_at(l, prev, i as int, mid.nodes[i as int].up as int);
            }
        }
        let ghost mut r: int = rows.len() as int;
        let mut p = self.get_up(i);
        while p != i
            invariant
                l.wf(),
                inv(l, prev),
                size == l.size(),
                1 <= i <= l.count,
                !prev.cov.contains(i as int),
                rows == col_cells(l, prev, i as int, l.size()),
                self.layout() == l,
                self.trail() == old(self).trail().drop_last(),
                self.tally() == (old(self).tally().0, old(self).tally().1 + rows.len() - r),
                self.sized() == old(self).sized(),
                0 <= r <= rows.len(),
                self.state() == hide_cells(prev, row_cells(l, rows.take(r))),
                p == i ==> r == 0,
                p != i ==> r > 0 && rows[r - 1] == p,
                0 <= p < l.size(),
            decreases r,
        {
            proof {
                lemma_cover_rows(l, prev, i as int, r - 1);
            }
            self.unhide(p, Ghost(hide_cells(prev, row_cells(l, rows.take(r - 1)))));
            proof {
                let cur = self.state();
                assert(in_list(l, cur, p as int));
                lemma_cell_facts(l, p as int);
                lemma_col_step_up(l, cur, i as int, p as int);
                lemma_rows_at(l, prev, i as int, p as int);
                let u = cur.nodes[p as int].up as int;
                assert(col_cells(l, cur, i as int, p as int) == col_cells(
                    l,
                    prev,
                    i as int,
                    p as int,
                ));
                assert(col_cells(l, prev, i as int, p as int).len() == r - 1);
                if u > l.count {
                    assert(col_cells(l, cur, i as int, u + 1) == col_cells(
                        l,
                        prev,
                        i as int,
                        u + 1,
                    ));
                    lemma_rows_at(l, prev, i as int, u);
                }
                r = r - 1;
            }
            p = self.get_up(p);
        }
        proof {
            assert(rows.take(0) =~= Seq::<int>::empty());
            let tr = self.trail();
            let st = self.state();
            assert(st == prev);
            lemma_pending_same(l, old(self).trail(), st1.cov, tr, st.cov, tr.len() as int);
            assert forall|k: int| 0 <= k < tr.len() implies #[trigger] covering_ok(
                l,
                tr,
                st,
                k,
            ) by {
                assert(covering_ok(l, old(self).trail(), st1, k));
                assert(tr[k] == old(self).trail()[k]);
                assert(st.cov[k] == st1.cov[k]);
                if k + 1 < tr.len() {
                    assert(tr[k + 1] == old(self).trail()[k + 1]);
                }
            }
        }
    }
}

} // verus!
