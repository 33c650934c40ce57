use vstd::prelude::*;

verus! {

/// Option `o` belongs to the selection `s` and names item `j`.
pub open spec fn covers(options: Seq<Seq<int>>, s: Set<int>, o: int, j: int) -> bool {
    s.contains(o) && 0 <= o < options.len() && options[o].contains(j)
}

/// Some selected option names item `j`.
pub open spec fn met(options: Seq<Seq<int>>, s: Set<int>, j: int) -> bool {
    exists|o: int| #[trigger] covers(options, s, o, j)
}

/// The option names at least one primary item.
pub open spec fn has_primary(primary: int, option: Seq<int>) -> bool {
    exists|k: int| 0 <= k < option.len() && 1 <= #[trigger] option[k] <= primary
}

/// The selection `s` of options is an exact cover: every primary item is
/// named by exactly one selected option, every other item by at most one,
/// and every selected option is an option that names a primary item.
pub open spec fn is_cover(primary: int, options: Seq<Seq<int>>, s: Set<int>) -> bool {
    &&& forall|o: int|
        #[trigger] s.contains(o) ==> 0 <= o < options.len() && has_primary(primary, options[o])
    &&& forall|j: int| 1 <= j <= primary ==> #[trigger] met(options, s, j)
    &&& forall|j: int, a: int, b: int|
        #[trigger] covers(options, s, a, j) && #[trigger] covers(options, s, b, j) ==> a == b
}

/// All exact covers of an instance.
pub open spec fn all_covers(primary: int, options: Seq<Seq<int>>) -> Set<Set<int>> {
    Set::new(|s: Set<int>| is_cover(primary, options, s))
}

/// Where every option names a primary item, the exact covers are the
/// selections that name every primary item exactly once and every other
/// item at most once.
pub proof fn lemma_cover_plain(primary: int, options: Seq<Seq<int>>, s: Set<int>)
    requires
        forall|o: int| 0 <= o < options.len() ==> has_primary(primary, #[trigger] options[o]),
    ensures
        is_cover(primary, options, s) <==> {
            &&& forall|o: int| #[trigger] s.contains(o) ==> 0 <= o < options.len()
            &&& forall|j: int| 1 <= j <= primary ==> #[trigger] met(options, s, j)
            &&& forall|j: int, a: int, b: int|
                #[trigger] covers(options, s, a, j) && #[trigger] covers(options, s, b, j) ==> a
                    == b
        },
{
}

/// A list without repetitions that holds exactly the exact covers shows
/// how many there are.
pub proof fn lemma_count_covers(primary: int, options: Seq<Seq<int>>, found: Seq<Set<int>>)
    requires
        found.no_duplicates(),
        forall|s: Set<int>| found.contains(s) <==> is_cover(primary, options, s),
    ensures
        all_covers(primary, options).finite(),
        all_covers(primary, options).len() == found.len(),
{
    found.unique_seq_to_set();
    assert(found.to_set() =~= all_covers(primary, options));
}

} // verus!
