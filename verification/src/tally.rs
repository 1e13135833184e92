use crate::counter::{bump, count_of};
use crate::keyed::{
    as_map, distinct_keys, has_key, lemma_as_map_empty, lemma_as_map_has_key, lemma_as_map_push,
};
use vstd::prelude::*;

verus! {

/// The sum of the numbers that a finite mapping holds.
pub open spec fn total(m: Map<Seq<char>, nat>) -> nat
    decreases m.dom().len(),
    when m.dom().finite()
{
    if m.dom().len() == 0 {
        0
    } else {
        let key = m.dom().choose();
        m[key] + total(m.remove(key))
    }
}

/// The sum of a sequence of numbers.
pub open spec fn sum(numbers: Seq<nat>) -> nat
    decreases numbers.len(),
{
    if numbers.len() == 0 {
        0
    } else {
        sum(numbers.drop_last()) + numbers.last()
    }
}

/// What is known of one commit type below a scope: how many commits had it,
/// and how many of them each author made.
#[verifier::ext_equal]
pub struct TypeTally {
    pub count: nat,
    pub authors: Map<Seq<char>, nat>,
}

/// What is known of one scope: how many commits named it, and the tally of
/// each type among them.
#[verifier::ext_equal]
pub struct ScopeTally {
    pub count: nat,
    pub types: Map<Seq<char>, TypeTally>,
}

/// One commit as the scope tree sees it: the scope and the type it
/// declares, and its author if one is known.
pub struct Record {
    pub scope: Seq<char>,
    pub kind: Seq<char>,
    pub author: Option<Seq<char>>,
}

/// The tally of `kind` in `types`; a type not seen so far has the empty
/// tally.
pub open spec fn type_node(types: Map<Seq<char>, TypeTally>, kind: Seq<char>) -> TypeTally {
    if types.contains_key(kind) {
        types[kind]
    } else {
        TypeTally { count: 0, authors: Map::empty() }
    }
}

/// The tally of `scope` in `tree`; a scope not seen so far has the empty
/// tally.
pub open spec fn scope_node(tree: Map<Seq<char>, ScopeTally>, scope: Seq<char>) -> ScopeTally {
    if tree.contains_key(scope) {
        tree[scope]
    } else {
        ScopeTally { count: 0, types: Map::empty() }
    }
}

/// A type's tally after one more commit of that type, by `author` if one is
/// given.
pub open spec fn type_after(t: TypeTally, author: Option<Seq<char>>) -> TypeTally {
    TypeTally {
        count: t.count + 1,
        authors: match author {
            Some(name) => bump(t.authors, name),
            None => t.authors,
        },
    }
}

/// A scope's tally after one more commit in it, of type `kind`.
pub open spec fn scope_after(node: ScopeTally, kind: Seq<char>, author: Option<Seq<char>>) -> ScopeTally {
    ScopeTally {
        count: node.count + 1,
        types: node.types.insert(kind, type_after(type_node(node.types, kind), author)),
    }
}

/// The scope tree after `r` was recorded in it: the count of the scope, the
/// count of the type below it and, where an author is given, the count of
/// the author below that each grow by one; nodes that are missing come into
/// being.
pub open spec fn record(tree: Map<Seq<char>, ScopeTally>, r: Record) -> Map<Seq<char>, ScopeTally> {
    tree.insert(r.scope, scope_after(scope_node(tree, r.scope), r.kind, r.author))
}

/// The scope tree that comes of recording `records` one after the other,
/// starting from the empty tree.
pub open spec fn tally(records: Seq<Record>) -> Map<Seq<char>, ScopeTally>
    decreases records.len(),
{
    if records.len() == 0 {
        Map::empty()
    } else {
        record(tally(records.drop_last()), records.last())
    }
}

/// The commit counts of the types in `types`.
pub open spec fn type_counts(types: Map<Seq<char>, TypeTally>) -> Map<Seq<char>, nat> {
    types.map_values(|t: TypeTally| t.count)
}

/// The counts of a type node add up: the authors below it account for no
/// more commits than the type has.
pub open spec fn type_rolled_up(t: TypeTally) -> bool {
    &&& t.authors.dom().finite()
    &&& total(t.authors) <= t.count
}

/// The counts of a scope node add up: its count is the sum of the counts of
/// its types, and each type's counts add up.
pub open spec fn scope_rolled_up(node: ScopeTally) -> bool {
    &&& node.types.dom().finite()
    &&& node.count == total(type_counts(node.types))
    &&& forall|kind: Seq<char>| #[trigger]
        node.types.contains_key(kind) ==> type_rolled_up(node.types[kind])
}

/// The counts of every node of the tree add up.
pub open spec fn rolled_up(tree: Map<Seq<char>, ScopeTally>) -> bool {
    forall|scope: Seq<char>| #[trigger] tree.contains_key(scope) ==> scope_rolled_up(tree[scope])
}

/// Every commit of the type was attributed to an author: the counts of the
/// authors add up to the count of the type.
pub open spec fn fully_attributed(t: TypeTally) -> bool {
    total(t.authors) == t.count
}

/// Any held key can be taken out of the sum first.
pub proof fn lemma_total_remove(m: Map<Seq<char>, nat>, key: Seq<char>)
    requires
        m.dom().finite(),
        m.contains_key(key),
    ensures
        total(m) == m[key] + total(m.remove(key)),
    decreases m.dom().len(),
{
    let chosen = m.dom().choose();
    if chosen != key {
        lemma_total_remove(m.remove(chosen), key);
        lemma_total_remove(m.remove(key), chosen);
        assert(m.remove(chosen).remove(key) =~= m.remove(key).remove(chosen));
    }
}

/// Filing a number under a key changes the sum by the difference to what
/// was filed there.
pub proof fn lemma_total_insert(m: Map<Seq<char>, nat>, key: Seq<char>, value: nat)
    requires
        m.dom().finite(),
    ensures
        total(m.insert(key, value)) == total(m) - count_of(m, key) + value,
{
    let after = m.insert(key, value);
    lemma_total_remove(after, key);
    if m.contains_key(key) {
        lemma_total_remove(m, key);
        assert(after.remove(key) =~= m.remove(key));
    } else {
        assert(after.remove(key) =~= m);
    }
}

/// No held number exceeds the sum.
pub proof fn lemma_total_bound(m: Map<Seq<char>, nat>, key: Seq<char>)
    requires
        m.dom().finite(),
    ensures
        count_of(m, key) <= total(m),
{
    if m.contains_key(key) {
        lemma_total_remove(m, key);
    }
}

/// The numbers of a list without repeated keys add up to the sum of the
/// mapping that the list stands for.
pub proof fn lemma_total_of_list(s: Seq<(Seq<char>, nat)>)
    requires
        distinct_keys(s),
    ensures
        total(as_map(s)) == sum(s.map_values(|e: (Seq<char>, nat)| e.1)),
    decreases s.len(),
{
    let numbers = s.map_values(|e: (Seq<char>, nat)| e.1);
    lemma_as_map_empty(s);
    if s.len() > 0 {
        let init = s.drop_last();
        let last = s.last();
        assert(distinct_keys(init)) by {
            assert forall|i: int, j: int| 0 <= i < j < init.len() implies (#[trigger] init[i]).0
                != (#[trigger] init[j]).0 by {
                assert(s[i].0 != s[j].0);
            }
        }
        assert(!has_key(init, last.0)) by {
            if has_key(init, last.0) {
                let i = crate::keyed::position(init, last.0);
                assert(s[i].0 != s[s.len() - 1].0);
            }
        }
        lemma_total_of_list(init);
        lemma_as_map_push(init, last.0, last.1);
        lemma_as_map_has_key(init, last.0);
        lemma_as_map_empty(init);
        lemma_total_insert(as_map(init), last.0, last.1);
        assert(init.push((last.0, last.1)) =~= s);
        assert(numbers.drop_last() =~= init.map_values(|e: (Seq<char>, nat)| e.1));
    }
}

/// The counts of the types are filed under the names of the types.
pub proof fn lemma_type_counts(types: Map<Seq<char>, TypeTally>)
    ensures
        type_counts(types).dom() == types.dom(),
        forall|kind: Seq<char>| #[trigger]
            count_of(type_counts(types), kind) == type_node(types, kind).count,
{
    assert(type_counts(types).dom() =~= types.dom());
}

/// Recording a commit keeps the counts of a type node adding up. They stay
/// fully attributed exactly if they were and the commit has an author.
pub proof fn lemma_type_after(t: TypeTally, author: Option<Seq<char>>)
    requires
        type_rolled_up(t),
    ensures
        type_rolled_up(type_after(t, author)),
        fully_attributed(type_after(t, author)) <==> fully_attributed(t) && author is Some,
{
    if let Some(name) = author {
        lemma_total_insert(t.authors, name, count_of(t.authors, name) + 1);
    }
}

/// Recording a commit keeps the counts of a scope node adding up.
pub proof fn lemma_scope_after(node: ScopeTally, kind: Seq<char>, author: Option<Seq<char>>)
    requires
        scope_rolled_up(node),
    ensures
        scope_rolled_up(scope_after(node, kind, author)),
{
    let before = type_node(node.types, kind);
    let after = type_after(before, author);
    let types = node.types.insert(kind, after);
    lemma_type_after(before, author);
    lemma_type_counts(node.types);
    lemma_type_counts(types);
    assert(type_counts(types) =~= type_counts(node.types).insert(kind, after.count));
    lemma_total_insert(type_counts(node.types), kind, after.count);
    assert forall|k: Seq<char>| #[trigger] types.contains_key(k) implies type_rolled_up(
        types[k],
    ) by {
        if k != kind {
            assert(node.types.contains_key(k));
        }
    }
}

/// Recording a commit keeps the counts of the whole tree adding up.
pub proof fn lemma_record_rolled_up(tree: Map<Seq<char>, ScopeTally>, r: Record)
    requires
        rolled_up(tree),
    ensures
        rolled_up(record(tree, r)),
{
    if !tree.contains_key(r.scope) {
        lemma_type_counts(Map::<Seq<char>, TypeTally>::empty());
        assert(type_counts(Map::<Seq<char>, TypeTally>::empty()) =~= Map::<Seq<char>, nat>::empty());
    }
    lemma_scope_after(scope_node(tree, r.scope), r.kind, r.author);
    let after = record(tree, r);
    assert forall|scope: Seq<char>| #[trigger] after.contains_key(scope) implies scope_rolled_up(
        after[scope],
    ) by {
        if scope != r.scope {
            assert(tree.contains_key(scope));
        }
    }
}

/// The counts of every tree that comes of recording commits add up: the
/// count of each scope is the sum of the counts of its types, and the
/// authors of a type account for no more commits than the type has.
pub proof fn lemma_tally_rolled_up(records: Seq<Record>)
    ensures
        rolled_up(tally(records)),
    decreases records.len(),
{
    if records.len() > 0 {
        lemma_tally_rolled_up(records.drop_last());
        lemma_record_rolled_up(tally(records.drop_last()), records.last());
    }
}

/// Recording leaves every node but the one of the record's scope and type
/// as it was.
pub proof fn lemma_record_elsewhere(
    tree: Map<Seq<char>, ScopeTally>,
    r: Record,
    scope: Seq<char>,
    kind: Seq<char>,
)
    requires
        scope != r.scope || kind != r.kind,
    ensures
        type_node(scope_node(record(tree, r), scope).types, kind) == type_node(
            scope_node(tree, scope).types,
            kind,
        ),
{
}

/// In a tree that comes of recording commits, the counts of the authors of
/// a type add up to the count of the type exactly if every commit of that
/// scope and type had an author.
pub proof fn lemma_tally_attributed(records: Seq<Record>, scope: Seq<char>, kind: Seq<char>)
    ensures
        fully_attributed(type_node(scope_node(tally(records), scope).types, kind)) <==> forall|
            i: int,
        |
            0 <= i < records.len() && (#[trigger] records[i]).scope == scope && records[i].kind
                == kind ==> records[i].author is Some,
    decreases records.len(),
{
    if records.len() > 0 {
        let init = records.drop_last();
        let last = records.last();
        lemma_tally_attributed(init, scope, kind);
        lemma_tally_rolled_up(init);
        let before = type_node(scope_node(tally(init), scope).types, kind);
        if last.scope == scope && last.kind == kind {
            if tally(init).contains_key(scope) && tally(init)[scope].types.contains_key(kind) {
                assert(type_rolled_up(before));
            }
            lemma_type_after(before, last.author);
            assert(type_node(scope_node(tally(records), scope).types, kind) == type_after(
                before,
                last.author,
            ));
        } else {
            lemma_record_elsewhere(tally(init), last, scope, kind);
        }
        assert forall|i: int| 0 <= i < init.len() implies init[i] == records[i] by {}
        if forall|i: int|
            0 <= i < init.len() && (#[trigger] init[i]).scope == scope && init[i].kind == kind
                ==> init[i].author is Some {
            if last.scope == scope && last.kind == kind ==> last.author is Some {
                assert forall|i: int|
                    0 <= i < records.len() && (#[trigger] records[i]).scope == scope
                        && records[i].kind == kind implies records[i].author is Some by {
                    if i < init.len() {
                        assert(init[i] == records[i]);
                    }
                }
            } else {
                assert(records[records.len() - 1] == last);
            }
        } else {
            let i = choose|i: int|
                0 <= i < init.len() && (#[trigger] init[i]).scope == scope && init[i].kind
                    == kind && !(init[i].author is Some);
            assert(records[i] == init[i]);
        }
    }
}

/// Counting two names comes to the same in either order.
pub proof fn lemma_bump_commutes(m: Map<Seq<char>, nat>, a: Seq<char>, b: Seq<char>)
    ensures
        bump(bump(m, a), b) == bump(bump(m, b), a),
{
    assert(bump(bump(m, a), b) =~= bump(bump(m, b), a));
}

/// Recording two commits in a type node comes to the same in either order.
pub proof fn lemma_type_after_commutes(t: TypeTally, a: Option<Seq<char>>, b: Option<Seq<char>>)
    ensures
        type_after(type_after(t, a), b) == type_after(type_after(t, b), a),
{
    if let Some(x) = a {
        if let Some(y) = b {
            lemma_bump_commutes(t.authors, x, y);
        }
    }
    assert(type_after(type_after(t, a), b) =~= type_after(type_after(t, b), a));
}

/// Recording two commits in a scope node comes to the same in either order.
pub proof fn lemma_scope_after_commutes(
    node: ScopeTally,
    kind_a: Seq<char>,
    author_a: Option<Seq<char>>,
    kind_b: Seq<char>,
    author_b: Option<Seq<char>>,
)
    ensures
        scope_after(scope_after(node, kind_a, author_a), kind_b, author_b) == scope_after(
            scope_after(node, kind_b, author_b),
            kind_a,
            author_a,
        ),
{
    let ab = scope_after(scope_after(node, kind_a, author_a), kind_b, author_b);
    let ba = scope_after(scope_after(node, kind_b, author_b), kind_a, author_a);
    if kind_a == kind_b {
        lemma_type_after_commutes(type_node(node.types, kind_a), author_a, author_b);
    }
    assert(ab.types =~= ba.types);
    assert(ab =~= ba);
}

/// Recording two commits in a tree comes to the same in either order.
pub proof fn lemma_record_commutes(tree: Map<Seq<char>, ScopeTally>, a: Record, b: Record)
    ensures
        record(record(tree, a), b) == record(record(tree, b), a),
{
    if a.scope == b.scope {
        lemma_scope_after_commutes(scope_node(tree, a.scope), a.kind, a.author, b.kind, b.author);
    }
    assert(record(record(tree, a), b) =~= record(record(tree, b), a));
}

/// The tree of a sequence of records is the tree of the sequence without
/// any one of them, with that one recorded last.
pub proof fn lemma_tally_remove(records: Seq<Record>, i: int)
    requires
        0 <= i < records.len(),
    ensures
        tally(records) == record(tally(records.remove(i)), records[i]),
    decreases records.len(),
{
    let init = records.drop_last();
    if i == records.len() - 1 {
        assert(records.remove(i) =~= init);
    } else {
        lemma_tally_remove(init, i);
        lemma_record_commutes(tally(init.remove(i)), init[i], records.last());
        assert(records.remove(i).drop_last() =~= init.remove(i));
        assert(records.remove(i).last() == records.last());
    }
}

/// Recording the same records in another order yields the same tree.
pub proof fn lemma_tally_permutation(a: Seq<Record>, b: Seq<Record>)
    requires
        a.to_multiset() == b.to_multiset(),
    ensures
        tally(a) == tally(b),
    decreases a.len(),
{
    vstd::seq_lib::to_multiset_len(a);
    vstd::seq_lib::to_multiset_len(b);
    if a.len() > 0 {
        let last = a.last();
        let i = a.len() - 1;
        assert(a.contains(last)) by {
            assert(a[i] == last);
        }
        vstd::seq_lib::to_multiset_contains(a, last);
        vstd::seq_lib::to_multiset_contains(b, last);
        let j = choose|j: int| 0 <= j < b.len() && b[j] == last;
        vstd::seq_lib::to_multiset_remove(a, i);
        vstd::seq_lib::to_multiset_remove(b, j);
        assert(a.remove(i) =~= a.drop_last());
        lemma_tally_permutation(a.drop_last(), b.remove(j));
        lemma_tally_remove(b, j);
    }
}

} // verus!
