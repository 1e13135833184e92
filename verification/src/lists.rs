use crate::counter::{entry_views, Counter};
use crate::keyed::{as_map, distinct_keys, lemma_as_map_has_key, lemma_as_map_insert, lemma_as_map_push};
use vstd::prelude::*;

verus! {

/// The counts of `s` never grow from one entry to a later one.
pub open spec fn descending(s: Seq<(Seq<char>, nat)>) -> bool {
    forall|i: int, j: int| 0 <= i <= j < s.len() ==> (#[trigger] s[i]).1 >= (#[trigger] s[j]).1
}

/// The entries of a counter, largest count first: the same names with the
/// same counts, in an order in which no count is followed by a larger one.
pub fn sort_by_values(values: Counter) -> (sorted: Vec<(String, u32)>)
    ensures
        descending(entry_views(sorted@)),
        forall|i: int|
            0 <= i < sorted.len() - 1 ==> (#[trigger] sorted[i]).1 >= sorted[i + 1].1,
        entry_views(sorted@).to_multiset() == values.pairs().to_multiset(),
        values.wf() ==> distinct_keys(entry_views(sorted@)) && as_map(entry_views(sorted@))
            == values@,
{
    let ghost all = values.pairs();
    let mut sorted: Vec<(String, u32)> = Vec::new();
    assert(all.take(0) =~= Seq::<(Seq<char>, nat)>::empty());
    assert(entry_views(sorted@) =~= Seq::<(Seq<char>, nat)>::empty());
    for entry in it: values.entries
        invariant
            all == entry_views(it.seq()),
            descending(entry_views(sorted@)),
            entry_views(sorted@).to_multiset() == all.take(it.index() as int).to_multiset(),
            distinct_keys(all) ==> distinct_keys(entry_views(sorted@)) && as_map(
                entry_views(sorted@),
            ) == as_map(all.take(it.index() as int)),
    {
        let ghost done = it.index() as int;
        let ghost before = entry_views(sorted@);
        let ghost e = (entry.0@, entry.1 as nat);
        assert(e == all[done]);
        let mut at: usize = 0;
        while at < sorted.len() && sorted[at].1 >= entry.1
            invariant
                at <= sorted.len(),
                before == entry_views(sorted@),
                e.1 == entry.1,
                forall|j: int| 0 <= j < at ==> (#[trigger] before[j]).1 >= e.1,
            decreases sorted.len() - at,
        {
            assert(before[at as int].1 == sorted[at as int].1);
            at += 1;
        }
        sorted.insert(at, entry);
        proof {
            let after = entry_views(sorted@);
            assert(after =~= before.insert(at as int, e));
            assert(all.take(done + 1) =~= all.take(done).push(e));
            vstd::seq_lib::to_multiset_insert(before, at as int, e);
            vstd::seq_lib::to_multiset_build(all.take(done), e);
            assert(descending(after)) by {
                assert forall|i: int, j: int| 0 <= i <= j < after.len() implies (
                #[trigger] after[i]).1 >= (#[trigger] after[j]).1 by {
                    let bi = if i < at { i } else { i - 1 };
                    let bj = if j < at { j } else { j - 1 };
                    if i != at {
                        assert(after[i] == before[bi]);
                    }
                    if j != at {
                        assert(after[j] == before[bj]);
                    }
                    if at < sorted.len() - 1 {
                        assert(before[at as int].1 < e.1);
                    }
                }
            }
            if distinct_keys(all) {
                assert(distinct_keys(all.take(done))) by {
                    assert forall|i: int, j: int| 0 <= i < j < done implies (
                    #[trigger] all.take(done)[i]).0 != (#[trigger] all.take(done)[j]).0 by {
                        assert(all[i].0 != all[j].0);
                    }
                }
                assert(!crate::keyed::has_key(all.take(done), e.0)) by {
                    if crate::keyed::has_key(all.take(done), e.0) {
                        let p = crate::keyed::position(all.take(done), e.0);
                        assert(all[p].0 != all[done].0);
                    }
                }
                lemma_as_map_has_key(all.take(done), e.0);
                lemma_as_map_has_key(before, e.0);
                lemma_as_map_push(all.take(done), e.0, e.1);
                lemma_as_map_insert(before, at as int, e.0, e.1);
            }
        }
    }
    assert(all.take(all.len() as int) =~= all);
    assert forall|i: int| 0 <= i < sorted.len() - 1 implies (#[trigger] sorted[i]).1 >= sorted[i
        + 1].1 by {
        assert(entry_views(sorted@)[i].1 >= entry_views(sorted@)[i + 1].1);
    }
    sorted
}

} // verus!
