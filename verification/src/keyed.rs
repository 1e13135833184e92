use vstd::prelude::*;

verus! {

/// Whether some entry of the list `s` is filed under `key`.
pub open spec fn has_key<V>(s: Seq<(Seq<char>, V)>, key: Seq<char>) -> bool {
    exists|i: int| 0 <= i < s.len() && (#[trigger] s[i]).0 == key
}

/// A position of `s` at which `key` is filed, if there is one.
pub open spec fn position<V>(s: Seq<(Seq<char>, V)>, key: Seq<char>) -> int {
    choose|i: int| 0 <= i < s.len() && (#[trigger] s[i]).0 == key
}

/// No two entries of `s` are filed under the same key.
pub open spec fn distinct_keys<V>(s: Seq<(Seq<char>, V)>) -> bool {
    forall|i: int, j: int| 0 <= i < j < s.len() ==> (#[trigger] s[i]).0 != (#[trigger] s[j]).0
}

/// The mapping that the list `s` of key and value pairs stands for.
pub open spec fn as_map<V>(s: Seq<(Seq<char>, V)>) -> Map<Seq<char>, V> {
    Map::new(|key: Seq<char>| has_key(s, key), |key: Seq<char>| s[position(s, key)].1)
}

/// The entry at position `i` of a list is what the mapping holds under that
/// entry's key.
pub proof fn lemma_as_map_at<V>(s: Seq<(Seq<char>, V)>, i: int)
    requires
        distinct_keys(s),
        0 <= i < s.len(),
    ensures
        has_key(s, s[i].0),
        as_map(s).contains_key(s[i].0),
        as_map(s)[s[i].0] == s[i].1,
{
    assert(has_key(s, s[i].0));
    let p = position(s, s[i].0);
    assert(p == i) by {
        if p < i {
            assert(s[p].0 != s[i].0);
        } else if i < p {
            assert(s[i].0 != s[p].0);
        }
    }
}

/// The empty list stands for the empty mapping, and no other list does.
pub proof fn lemma_as_map_empty<V>(s: Seq<(Seq<char>, V)>)
    ensures
        s.len() == 0 <==> as_map(s) == Map::<Seq<char>, V>::empty(),
        as_map(s).dom().finite(),
{
    if s.len() == 0 {
        assert(as_map(s) =~= Map::<Seq<char>, V>::empty());
    } else {
        assert(has_key(s, s[0].0));
        assert(as_map(s).contains_key(s[0].0));
    }
    lemma_as_map_finite(s);
}

proof fn lemma_as_map_finite<V>(s: Seq<(Seq<char>, V)>)
    ensures
        as_map(s).dom().finite(),
    decreases s.len(),
{
    if s.len() == 0 {
        assert(as_map(s).dom() =~= Set::<Seq<char>>::empty());
    } else {
        let init = s.drop_last();
        lemma_as_map_finite(init);
        assert(as_map(s).dom() =~= as_map(init).dom().insert(s.last().0)) by {
            assert forall|key: Seq<char>| has_key(s, key) <==> (has_key(init, key) || key
                == s.last().0) by {
                if has_key(s, key) {
                    let i = position(s, key);
                    if i < s.len() - 1 {
                        assert(init[i].0 == key);
                    }
                }
                if has_key(init, key) {
                    let i = position(init, key);
                    assert(s[i].0 == key);
                }
                if key == s.last().0 {
                    assert(s[s.len() - 1].0 == key);
                }
            }
        }
    }
}

/// Appending an entry under a key that is not yet filed inserts it into the
/// mapping.
pub proof fn lemma_as_map_push<V>(s: Seq<(Seq<char>, V)>, key: Seq<char>, value: V)
    requires
        distinct_keys(s),
        !has_key(s, key),
    ensures
        distinct_keys(s.push((key, value))),
        as_map(s.push((key, value))) == as_map(s).insert(key, value),
{
    let t = s.push((key, value));
    assert(distinct_keys(t)) by {
        assert forall|i: int, j: int| 0 <= i < j < t.len() implies (#[trigger] t[i]).0 != (
        #[trigger] t[j]).0 by {
            if j < s.len() {
                assert(s[i].0 != s[j].0);
            } else {
                assert(t[i] == s[i]);
            }
        }
    }
    assert forall|k: Seq<char>| has_key(t, k) <==> (has_key(s, k) || k == key) by {
        if has_key(t, k) {
            let i = position(t, k);
            if i < s.len() {
                assert(s[i].0 == k);
            }
        }
        if has_key(s, k) {
            let i = position(s, k);
            assert(t[i].0 == k);
        }
        if k == key {
            assert(t[t.len() - 1].0 == k);
        }
    }
    assert forall|k: Seq<char>| has_key(t, k) implies as_map(t)[k] == as_map(s).insert(
        key,
        value,
    )[k] by {
        let i = position(t, k);
        lemma_as_map_at(t, i);
        if i < s.len() {
            assert(t[i] == s[i]);
            lemma_as_map_at(s, i);
        }
    }
    assert(as_map(t) =~= as_map(s).insert(key, value));
}

/// Putting an entry under a key that is not yet filed anywhere into the
/// list inserts it into the mapping.
pub proof fn lemma_as_map_insert<V>(s: Seq<(Seq<char>, V)>, at: int, key: Seq<char>, value: V)
    requires
        distinct_keys(s),
        !has_key(s, key),
        0 <= at <= s.len(),
    ensures
        distinct_keys(s.insert(at, (key, value))),
        as_map(s.insert(at, (key, value))) == as_map(s).insert(key, value),
{
    let t = s.insert(at, (key, value));
    let back = |i: int| if i < at { i } else { i - 1 };
    assert forall|i: int| 0 <= i < t.len() && i != at implies #[trigger] t[i] == s[back(i)] by {}
    assert(distinct_keys(t)) by {
        assert forall|i: int, j: int| 0 <= i < j < t.len() implies (#[trigger] t[i]).0 != (
        #[trigger] t[j]).0 by {
            if i != at && j != at {
                assert(s[back(i)].0 != s[back(j)].0);
            } else if i == at {
                assert(t[j] == s[back(j)]);
            } else {
                assert(t[i] == s[back(i)]);
            }
        }
    }
    assert forall|k: Seq<char>| has_key(t, k) <==> (has_key(s, k) || k == key) by {
        if has_key(t, k) {
            let i = position(t, k);
            if i != at {
                assert(s[back(i)].0 == k);
            }
        }
        if has_key(s, k) {
            let i = position(s, k);
            let j = if i < at { i } else { i + 1 };
            assert(t[j] == s[i]);
        }
        if k == key {
            assert(t[at].0 == k);
        }
    }
    assert forall|k: Seq<char>| has_key(t, k) implies as_map(t)[k] == as_map(s).insert(
        key,
        value,
    )[k] by {
        let i = position(t, k);
        lemma_as_map_at(t, i);
        if i != at {
            assert(t[i] == s[back(i)]);
            lemma_as_map_at(s, back(i));
        }
    }
    assert(as_map(t) =~= as_map(s).insert(key, value));
}

/// Replacing the value of the entry at position `i` replaces what the
/// mapping holds under that entry's key.
pub proof fn lemma_as_map_update<V>(s: Seq<(Seq<char>, V)>, i: int, value: V)
    requires
        distinct_keys(s),
        0 <= i < s.len(),
    ensures
        distinct_keys(s.update(i, (s[i].0, value))),
        as_map(s.update(i, (s[i].0, value))) == as_map(s).insert(s[i].0, value),
{
    let key = s[i].0;
    let t = s.update(i, (key, value));
    assert(distinct_keys(t)) by {
        assert forall|a: int, b: int| 0 <= a < b < t.len() implies (#[trigger] t[a]).0 != (
        #[trigger] t[b]).0 by {
            assert(t[a].0 == s[a].0);
            assert(t[b].0 == s[b].0);
        }
    }
    assert forall|k: Seq<char>| has_key(t, k) <==> has_key(s, k) by {
        if has_key(t, k) {
            let p = position(t, k);
            assert(s[p].0 == k);
        }
        if has_key(s, k) {
            let p = position(s, k);
            assert(t[p].0 == k);
        }
    }
    assert(has_key(s, key));
    assert forall|k: Seq<char>| has_key(t, k) implies as_map(t)[k] == as_map(s).insert(
        key,
        value,
    )[k] by {
        let p = position(t, k);
        lemma_as_map_at(t, p);
        if p != i {
            assert(t[p] == s[p]);
            lemma_as_map_at(s, p);
        }
    }
    assert(as_map(t) =~= as_map(s).insert(key, value));
}

/// The list `s` with `f` applied to each of its values.
pub open spec fn with_values<V, W>(s: Seq<(Seq<char>, V)>, f: spec_fn(V) -> W) -> Seq<
    (Seq<char>, W),
> {
    s.map_values(|e: (Seq<char>, V)| (e.0, f(e.1)))
}

/// Applying a function to the values of a list applies it to the values of
/// the mapping.
pub proof fn lemma_as_map_with_values<V, W>(s: Seq<(Seq<char>, V)>, f: spec_fn(V) -> W)
    requires
        distinct_keys(s),
    ensures
        distinct_keys(with_values(s, f)),
        as_map(with_values(s, f)) == as_map(s).map_values(f),
{
    let t = with_values(s, f);
    assert(distinct_keys(t)) by {
        assert forall|i: int, j: int| 0 <= i < j < t.len() implies (#[trigger] t[i]).0 != (
        #[trigger] t[j]).0 by {
            assert(s[i].0 != s[j].0);
        }
    }
    assert forall|k: Seq<char>| has_key(t, k) <==> has_key(s, k) by {
        if has_key(t, k) {
            let p = position(t, k);
            assert(s[p].0 == k);
        }
        if has_key(s, k) {
            let p = position(s, k);
            assert(t[p].0 == k);
        }
    }
    assert forall|k: Seq<char>| has_key(t, k) implies as_map(t)[k] == as_map(s).map_values(f)[k] by {
        let p = position(t, k);
        lemma_as_map_at(t, p);
        assert(s[p].0 == k);
        lemma_as_map_at(s, p);
    }
    assert(as_map(t) =~= as_map(s).map_values(f));
}

/// A key is filed in the list exactly if the mapping holds it.
pub proof fn lemma_as_map_has_key<V>(s: Seq<(Seq<char>, V)>, key: Seq<char>)
    ensures
        as_map(s).contains_key(key) <==> has_key(s, key),
        has_key(s, key) ==> 0 <= position(s, key) < s.len() && s[position(s, key)].0 == key,
{
}

} // verus!
