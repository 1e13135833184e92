use crate::domain::{ScopeNode, TypeNode};
use crate::keyed::{lemma_as_map_with_values, with_values};
use crate::tally::{fully_attributed, lemma_total_of_list, sum, TypeTally};
use vstd::prelude::*;
use vstd::string::*;

verus! {

/// The parts of a report: the path of the repository, the table of commit
/// types, the table of authors and the scope tree.
#[derive(Debug, Clone, Copy)]
pub struct Sections {
    pub path: bool,
    pub types: bool,
    pub authors: bool,
    pub scope: bool,
}

/// The parts that a display mode asks for. `every` asks for all of them;
/// `types`, `authors` and `scope` each ask for the part of that name; any
/// other word asks for nothing.
pub open spec fn selected(display: Seq<char>) -> Sections {
    Sections {
        path: display == "every"@,
        types: display == "every"@ || display == "types"@,
        authors: display == "every"@ || display == "authors"@,
        scope: display == "every"@ || display == "scope"@,
    }
}

/// The parts of the report that the display mode `display` asks for.
pub fn sections(display: &str) -> (s: Sections)
    ensures
        s == selected(display@),
{
    let mode = display.to_owned();
    let every = mode == "every".to_owned();
    Sections {
        path: every,
        types: every || mode == "types".to_owned(),
        authors: every || mode == "authors".to_owned(),
        scope: every || mode == "scope".to_owned(),
    }
}

/// Something that stands for a number of commits.
pub trait Counted {
    spec fn counted(&self) -> u32;

    fn count(&self) -> (n: u32)
        ensures
            n == self.counted(),
    ;
}

impl Counted for (String, u32) {
    open spec fn counted(&self) -> u32 {
        self.1
    }

    fn count(&self) -> (n: u32) {
        self.1
    }
}

impl Counted for TypeNode {
    open spec fn counted(&self) -> u32 {
        self.count
    }

    fn count(&self) -> (n: u32) {
        self.count
    }
}

impl Counted for ScopeNode {
    open spec fn counted(&self) -> u32 {
        self.count
    }

    fn count(&self) -> (n: u32) {
        self.count
    }
}

/// The numbers that the rows of a table stand for.
pub open spec fn counts<T: Counted>(rows: Seq<T>) -> Seq<nat> {
    rows.map_values(|row: T| row.counted() as nat)
}

proof fn lemma_sum_bound(numbers: Seq<nat>)
    requires
        forall|i: int| 0 <= i < numbers.len() ==> numbers[i] <= u32::MAX,
    ensures
        sum(numbers) <= numbers.len() * u32::MAX,
    decreases numbers.len(),
{
    if numbers.len() > 0 {
        lemma_sum_bound(numbers.drop_last());
        assert((numbers.len() - 1) * u32::MAX + u32::MAX == numbers.len() * u32::MAX)
            by (nonlinear_arith);
    }
}

proof fn lemma_sum_fits(numbers: Seq<nat>, done: int)
    requires
        0 <= done < numbers.len() <= u32::MAX,
        forall|i: int| 0 <= i < numbers.len() ==> numbers[i] <= u32::MAX,
    ensures
        sum(numbers.take(done)) + numbers[done] <= u64::MAX,
        sum(numbers.take(done + 1)) == sum(numbers.take(done)) + numbers[done],
{
    lemma_sum_bound(numbers.take(done));
    assert(numbers.take(done + 1).drop_last() =~= numbers.take(done));
    assert(numbers.take(done).len() * u32::MAX + u32::MAX <= u64::MAX) by (nonlinear_arith)
        requires
            numbers.take(done).len() < u32::MAX,
    ;
}

/// The counts of the types of a well-formed scope add up to the count of
/// the scope.
pub proof fn lemma_types_total(node: &ScopeNode)
    requires
        node.wf(),
    ensures
        sum(counts(node.types@)) == node.count,
{
    let f = |t: TypeTally| t.count;
    let list = with_values(node.pairs(), f);
    lemma_as_map_with_values(node.pairs(), f);
    lemma_total_of_list(list);
    assert(list.map_values(|e: (Seq<char>, nat)| e.1) =~= counts(node.types@));
}

/// The counts of the authors of a well-formed type add up to no more than
/// the count of the type, and to just that if every commit of the type was
/// attributed.
pub proof fn lemma_authors_total(t: &TypeNode)
    requires
        t.wf(),
    ensures
        sum(counts(t.authors.entries@)) <= t.count,
        sum(counts(t.authors.entries@)) == t.count <==> fully_attributed(t@),
{
    lemma_total_of_list(t.authors.pairs());
    assert(t.authors.pairs().map_values(|e: (Seq<char>, nat)| e.1) =~= counts(
        t.authors.entries@,
    ));
}

/// The number of commits that the rows of a table account for together: the
/// number against which the share of each row is measured.
pub fn total<T: Counted>(rows: &Vec<T>) -> (n: u64)
    requires
        rows.len() <= u32::MAX,
    ensures
        n == sum(counts(rows@)),
{
    let ghost numbers = counts(rows@);
    let mut n: u64 = 0;
    let mut i: usize = 0;
    assert(numbers.take(0) =~= Seq::<nat>::empty());
    while i < rows.len()
        invariant
            i <= rows.len() <= u32::MAX,
            numbers == counts(rows@),
            n == sum(numbers.take(i as int)),
        decreases rows.len() - i,
    {
        proof {
            lemma_sum_fits(numbers, i as int);
        }
        n = n + rows[i].count() as u64;
        i += 1;
    }
    assert(numbers.take(rows.len() as int) =~= numbers);
    n
}

} // verus!
