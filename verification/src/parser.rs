use crate::counter::{bump, count_of, Counter};
use crate::domain::{Analysis, AnalysisView, Commit, CommitView, ParsedScope, Scope, ScopeNode};
use crate::keyed::{lemma_as_map_at, lemma_as_map_has_key, lemma_as_map_push, lemma_as_map_update};
use crate::strings::{
    chars_of, find_char, has_prefix, lowercase, some_string, to_lowercase, trim_range, trimmed,
};
use crate::tally::{
    lemma_record_rolled_up, lemma_tally_rolled_up, record, rolled_up, scope_node, tally, Record,
    ScopeTally,
};
use vstd::prelude::*;
use vstd::string::*;

verus! {

/// Where the type token of `msg` ends: at the first `(` that stands before
/// the first `:`, else at that `:`. A message without any `:` has no type.
pub open spec fn type_boundary(msg: Seq<char>) -> Option<int> {
    match msg.index_of_first(':') {
        None => None,
        Some(colon) => match msg.subrange(0, colon).index_of_first('(') {
            Some(paren) => Some(paren),
            None => Some(colon),
        },
    }
}

/// The rules that turn a lowercased type token into the reported type, in
/// order of priority: anything that begins with `merge` is a merge, anything
/// that begins with `revert` is a revert, every other token stands for
/// itself.
pub open spec fn normalized_type(lowered: Seq<char>) -> Seq<char> {
    if "merge"@.is_prefix_of(lowered) {
        "merge"@
    } else if "revert"@.is_prefix_of(lowered) {
        "revert"@
    } else {
        lowered
    }
}

/// The commit type that `msg` declares; empty when `msg` does not follow the
/// convention.
pub open spec fn classified_type(msg: Seq<char>) -> Seq<char> {
    match type_boundary(msg) {
        None => Seq::empty(),
        Some(end) => normalized_type(lowercase(msg.subrange(0, end))),
    }
}

/// The two characters that cut a header into pieces.
pub open spec fn is_parenthesis(c: char) -> bool {
    c == '(' || c == ')'
}

/// The pieces into which the parentheses of `s` cut it, in order, empty
/// pieces included: one piece more than `s` has parentheses.
pub open spec fn fragments(s: Seq<char>) -> Seq<Seq<char>>
    decreases s.len(),
{
    if s.len() == 0 {
        seq![Seq::empty()]
    } else {
        let before = fragments(s.drop_last());
        if is_parenthesis(s.last()) {
            before.push(Seq::empty())
        } else {
            before.drop_last().push(before.last().push(s.last()))
        }
    }
}

/// `parts` without its empty members.
pub open spec fn without_empty(parts: Seq<Seq<char>>) -> Seq<Seq<char>> {
    parts.filter(|part: Seq<char>| part.len() > 0)
}

/// The scope that `msg` names in its header, that is in what stands before
/// its first `:`. The header must hold at least two non-empty pieces between
/// its parentheses; the last of them, trimmed, is the scope unless nothing
/// but white space is in it.
pub open spec fn extracted_scope(msg: Seq<char>) -> Option<Seq<char>> {
    match msg.index_of_first(':') {
        None => None,
        Some(colon) => {
            let parts = without_empty(fragments(msg.subrange(0, colon)));
            if parts.len() < 2 {
                None
            } else if trimmed(parts.last()).len() == 0 {
                None
            } else {
                Some(trimmed(parts.last()))
            }
        },
    }
}

/// Finds the end of the type token of `msg`.
pub fn find_type_boundary(msg: &Vec<char>) -> (r: Option<usize>)
    ensures
        match r {
            Some(end) => type_boundary(msg@) == Some(end as int) && end < msg.len(),
            None => type_boundary(msg@) is None,
        },
{
    assert(msg@.subrange(0, msg.len() as int) =~= msg@);
    match find_char(msg, msg.len(), ':') {
        None => None,
        Some(colon) => {
            proof {
                msg@.index_of_first_ensures(':');
                msg@.subrange(0, colon as int).index_of_first_ensures('(');
            }
            match find_char(msg, colon, '(') {
                Some(paren) => Some(paren),
                None => Some(colon),
            }
        },
    }
}

/// Applies the type rules to a token that is already in lowercase.
pub fn normalize_type(lowered: String) -> (r: String)
    ensures
        r@ == normalized_type(lowered@),
{
    let chars = chars_of(lowered.as_str());
    if has_prefix(&chars, &chars_of("merge")) {
        "merge".to_owned()
    } else if has_prefix(&chars, &chars_of("revert")) {
        "revert".to_owned()
    } else {
        lowered
    }
}

/// Classifies a commit message: the lowercased, normalized type that its
/// header declares, or the empty string when the message has no `:` and so
/// does not follow the convention.
pub fn get_type(message: String) -> (r: String)
    ensures
        r@ == classified_type(message@),
{
    let chars = chars_of(message.as_str());
    match find_type_boundary(&chars) {
        None => String::new(),
        Some(end) => {
            let token = message.as_str().substring_char(0, end);
            normalize_type(to_lowercase(token))
        },
    }
}

/// The classifier under its plural name: the same as [`get_type`].
pub fn get_types(message: String) -> (r: String)
    ensures
        r@ == classified_type(message@),
{
    get_type(message)
}

/// The bounds of the last non-empty piece between the parentheses of
/// `msg[..end]`, if there are at least two such pieces: the scope of a
/// header before it is trimmed.
pub fn last_fragment(msg: &Vec<char>, end: usize) -> (r: Option<(usize, usize)>)
    requires
        end <= msg.len(),
    ensures
        r is Some <==> without_empty(fragments(msg@.subrange(0, end as int))).len() >= 2,
        r matches Some((from, to)) ==> from <= to <= end && msg@.subrange(from as int, to as int)
            == without_empty(fragments(msg@.subrange(0, end as int))).last(),
{
    let mut k: usize = 0;
    let mut start: usize = 0;
    let mut count: usize = 0;
    let mut last_from: usize = 0;
    let mut last_to: usize = 0;
    assert(msg@.subrange(0, 0) =~= Seq::<char>::empty());
    assert(msg@.subrange(0, 0).len() == 0);
    assert(fragments(msg@.subrange(0, 0)) =~= seq![Seq::<char>::empty()]);
    assert(fragments(msg@.subrange(0, 0)).drop_last() =~= Seq::<Seq<char>>::empty());
    assert(without_empty(Seq::<Seq<char>>::empty()).len() == 0) by {
        reveal(Seq::filter);
    }
    while k < end
        invariant
            start <= k <= end <= msg.len(),
            count <= k,
            fragments(msg@.subrange(0, k as int)).len() >= 1,
            fragments(msg@.subrange(0, k as int)).last() == msg@.subrange(start as int, k as int),
            without_empty(fragments(msg@.subrange(0, k as int)).drop_last()).len() == count,
            count > 0 ==> last_from <= last_to <= k && without_empty(
                fragments(msg@.subrange(0, k as int)).drop_last(),
            ).last() == msg@.subrange(last_from as int, last_to as int),
        decreases end - k,
    {
        let c = msg[k];
        let ghost before = fragments(msg@.subrange(0, k as int));
        let ghost next = msg@.subrange(0, k as int + 1);
        proof {
            assert(next.drop_last() =~= msg@.subrange(0, k as int));
            assert(next.last() == c);
            assert(before =~= before.drop_last().push(before.last()));
            before.drop_last().lemma_filter_push(before.last(), |part: Seq<char>| part.len() > 0);
        }
        if c == '(' || c == ')' {
            assert(fragments(next) == before.push(Seq::empty()));
            assert(fragments(next).drop_last() =~= before);
            if start < k {
                count += 1;
                last_from = start;
                last_to = k;
            }
            start = k + 1;
            assert(msg@.subrange(start as int, k as int + 1) =~= Seq::<char>::empty());
        } else {
            assert(fragments(next) == before.drop_last().push(before.last().push(c)));
            assert(fragments(next).drop_last() =~= before.drop_last());
            assert(msg@.subrange(start as int, k as int).push(c) =~= msg@.subrange(
                start as int,
                k as int + 1,
            ));
        }
        k += 1;
    }
    let ghost all = fragments(msg@.subrange(0, end as int));
    proof {
        assert(all =~= all.drop_last().push(all.last()));
        all.drop_last().lemma_filter_push(all.last(), |part: Seq<char>| part.len() > 0);
    }
    if start < end {
        if count >= 1 {
            Some((start, end))
        } else {
            None
        }
    } else if count >= 2 {
        Some((last_from, last_to))
    } else {
        None
    }
}

/// Extracts the scope of a commit message, if its header names one.
pub fn get_scope(commit_message: String) -> (r: Option<String>)
    ensures
        match r {
            Some(scope) => extracted_scope(commit_message@) == Some(scope@),
            None => extracted_scope(commit_message@) is None,
        },
{
    let chars = chars_of(commit_message.as_str());
    assert(chars@.subrange(0, chars.len() as int) =~= chars@);
    match find_char(&chars, chars.len(), ':') {
        None => None,
        Some(colon) => match last_fragment(&chars, colon) {
            None => None,
            Some((from, to)) => {
                let (a, b) = trim_range(&chars, from, to);
                if a == b {
                    None
                } else {
                    Some(commit_message.as_str().substring_char(a, b).to_owned())
                }
            },
        },
    }
}

/// What a commit adds to the scope tree: nothing unless it declares both a
/// type and a scope.
pub open spec fn scope_record(c: CommitView) -> Option<Record> {
    if classified_type(c.message).len() == 0 {
        None
    } else {
        match extracted_scope(c.message) {
            Some(scope) => Some(
                Record {
                    scope,
                    kind: classified_type(c.message),
                    author: if c.author.len() == 0 {
                        None
                    } else {
                        Some(c.author)
                    },
                },
            ),
            None => None,
        }
    }
}

/// The analysis `a` after the commit `c` was taken into account. A commit
/// without a type changes nothing. Any other commit counts for its type, for
/// its author unless the name is empty, and in the scope tree where it names
/// a scope.
pub open spec fn counted(a: AnalysisView, c: CommitView) -> AnalysisView {
    let kind = classified_type(c.message);
    if kind.len() == 0 {
        a
    } else {
        AnalysisView {
            types: bump(a.types, kind),
            authors: if c.author.len() == 0 {
                a.authors
            } else {
                bump(a.authors, c.author)
            },
            scope: match scope_record(c) {
                Some(r) => record(a.scope, r),
                None => a.scope,
            },
        }
    }
}

/// The analysis of `commits`, taken one after the other in their order.
pub open spec fn analyzed(commits: Seq<CommitView>) -> AnalysisView
    decreases commits.len(),
{
    if commits.len() == 0 {
        AnalysisView { types: Map::empty(), authors: Map::empty(), scope: Map::empty() }
    } else {
        counted(analyzed(commits.drop_last()), commits.last())
    }
}

/// The records that the commits of a history add to the scope tree, in the
/// order of the commits.
pub open spec fn scope_records(commits: Seq<CommitView>) -> Seq<Record>
    decreases commits.len(),
{
    if commits.len() == 0 {
        Seq::empty()
    } else {
        match scope_record(commits.last()) {
            Some(r) => scope_records(commits.drop_last()).push(r),
            None => scope_records(commits.drop_last()),
        }
    }
}

/// The scope tree of an analysis is the tally of the records of its
/// commits.
pub proof fn lemma_analyzed_scope(commits: Seq<CommitView>)
    ensures
        analyzed(commits).scope == tally(scope_records(commits)),
    decreases commits.len(),
{
    if commits.len() > 0 {
        lemma_analyzed_scope(commits.drop_last());
        if let Some(r) = scope_record(commits.last()) {
            assert(scope_records(commits).drop_last() =~= scope_records(commits.drop_last()));
        }
    }
}

/// In the scope tree of every analysis the counts add up: the count of each
/// scope is the sum of the counts of its types, and the authors of a type
/// account for no more commits than the type has.
pub proof fn lemma_analyzed_rolled_up(commits: Seq<CommitView>)
    ensures
        rolled_up(analyzed(commits).scope),
{
    lemma_analyzed_scope(commits);
    lemma_tally_rolled_up(scope_records(commits));
}

/// The commits of a history as plain values.
pub open spec fn commit_views(entries: Seq<Commit>) -> Seq<CommitView> {
    entries.map_values(|c: Commit| c@)
}

/// Analyzes a history: classifies each commit and counts it by type, by
/// author and in the scope tree. Fails if no commit of the history follows
/// the convention.
pub fn parse_entries(entries: Vec<Commit>) -> (r: Result<Analysis, String>)
    requires
        entries.len() <= u32::MAX,
    ensures
        match r {
            Ok(analysis) => {
                &&& analysis.wf()
                &&& analysis@ == analyzed(commit_views(entries@))
                &&& exists|i: int|
                    0 <= i < entries.len() && classified_type(
                        (#[trigger] entries[i]).message@,
                    ).len() > 0
            },
            Err(reason) => {
                &&& reason@ == "No types found"@
                &&& forall|i: int|
                    0 <= i < entries.len() ==> classified_type(
                        (#[trigger] entries[i]).message@,
                    ).len() == 0
            },
        },
{
    let mut types = Counter::new();
    let mut authors = Counter::new();
    let mut scopes = Scope::new();
    let ghost all = entries@;
    let ghost commits = commit_views(all);
    assert(commits.take(0) =~= Seq::<CommitView>::empty());
    for entry in it: entries
        invariant
            it.seq() == all,
            all.len() <= u32::MAX,
            commits == commit_views(all),
            types.wf(),
            authors.wf(),
            scopes.wf(),
            types@ == analyzed(commits.take(it.index() as int)).types,
            authors@ == analyzed(commits.take(it.index() as int)).authors,
            scopes@ == analyzed(commits.take(it.index() as int)).scope,
            forall|key: Seq<char>| count_of(types@, key) <= it.index(),
            forall|key: Seq<char>| count_of(authors@, key) <= it.index(),
            forall|key: Seq<char>| (#[trigger] scope_node(scopes@, key)).count <= it.index(),
            (types@ == Map::<Seq<char>, nat>::empty()) <==> (forall|j: int|
                0 <= j < it.index() ==> classified_type((#[trigger] all[j]).message@).len() == 0),
    {
        let ghost done = it.index() as int;
        proof {
            assert(commits.take(done + 1).drop_last() =~= commits.take(done));
            assert(commits.take(done + 1).last() == entry@);
        }
        let Commit { message, author } = entry;
        let commit_type = get_type(message.clone());
        if !commit_type.as_str().is_empty() {
            let ghost types_before = types@;
            let ghost kind = commit_type@;
            assert(count_of(types@, kind) <= done);
            types.increment(commit_type.clone());
            assert(types@.contains_key(kind));
            assert forall|key: Seq<char>| count_of(types@, key) <= done + 1 by {
                assert(count_of(types_before, key) <= done);
            }
            if !author.as_str().is_empty() {
                let ghost authors_before = authors@;
                assert(count_of(authors@, author@) <= done);
                authors.increment(author.clone());
                assert forall|key: Seq<char>| count_of(authors@, key) <= done + 1 by {
                    assert(count_of(authors_before, key) <= done);
                }
            }
            if let Some(scope) = get_scope(message) {
                let ghost scopes_before = scopes@;
                let item = ParsedScope { scope, type_: commit_type, author: some_string(author) };
                assert(Some(item@) == scope_record(entry@));
                assert(scope_node(scopes@, item.scope@).count <= done);
                add_to_scope(item, &mut scopes);
                assert forall|key: Seq<char>| (#[trigger] scope_node(scopes@, key)).count <= done
                    + 1 by {
                    assert(scope_node(scopes_before, key).count <= done);
                }
            }
        }
    }
    assert(commits.take(all.len() as int) =~= commits);
    if types.is_empty() {
        Err("No types found".to_owned())
    } else {
        Ok(Analysis { types, authors, scope: scopes })
    }
}

/// Records one parsed commit in the scope tree: the count of its scope, of
/// its type below that scope and, where it has one, of its author below that
/// type each grow by one.
pub fn add_to_scope(item: ParsedScope, scopes: &mut Scope)
    requires
        old(scopes).wf(),
        scope_node(old(scopes)@, item.scope@).count < u32::MAX,
    ensures
        final(scopes).wf(),
        final(scopes)@ == record(old(scopes)@, item@),
{
    let ghost before = scopes.pairs();
    let ghost r = item@;
    proof {
        lemma_as_map_has_key(before, r.scope);
        lemma_record_rolled_up(scopes@, r);
    }
    let ParsedScope { scope, type_, author } = item;
    let i = match scopes.find(&scope) {
        Some(i) => {
            proof {
                lemma_as_map_at(before, i as int);
            }
            i
        },
        None => {
            scopes.nodes.push(ScopeNode::new(scope));
            proof {
                lemma_as_map_push(before, r.scope, ScopeTally { count: 0, types: Map::empty() });
                assert(scopes.pairs() =~= before.push(
                    (r.scope, ScopeTally { count: 0, types: Map::empty() }),
                ));
            }
            scopes.nodes.len() - 1
        },
    };
    let ghost mid = scopes.pairs();
    assert(mid[i as int].0 == r.scope);
    assert(mid[i as int].1 == scope_node(crate::keyed::as_map(before), r.scope));
    scopes.nodes[i].record(type_, author);
    proof {
        let after = scopes.nodes[i as int]@;
        lemma_as_map_update(mid, i as int, after);
        assert(scopes.pairs() =~= mid.update(i as int, (r.scope, after)));
        assert(scopes@ =~= crate::keyed::as_map(before).insert(r.scope, after));
    }
}

} // verus!
