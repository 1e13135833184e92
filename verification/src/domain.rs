use crate::counter::Counter;
use crate::keyed::{
    as_map, distinct_keys, has_key, lemma_as_map_at, lemma_as_map_empty, lemma_as_map_has_key,
    lemma_as_map_push, lemma_as_map_update,
};
use crate::tally::{
    lemma_scope_after, lemma_total_bound, lemma_type_after, lemma_type_counts, rolled_up,
    scope_after, scope_rolled_up, type_after, type_counts, type_node, type_rolled_up, Record,
    ScopeTally, TypeTally,
};
use vstd::prelude::*;

verus! {

/// One commit of the history: the first line of its message, and the name of
/// its author, empty where the name is not known.
#[derive(Debug)]
pub struct Commit {
    pub message: String,
    pub author: String,
}

/// A commit as plain values.
pub struct CommitView {
    pub message: Seq<char>,
    pub author: Seq<char>,
}

impl View for Commit {
    type V = CommitView;

    open spec fn view(&self) -> CommitView {
        CommitView { message: self.message@, author: self.author@ }
    }
}

/// The name that an optional author string holds.
pub open spec fn author_name(author: Option<String>) -> Option<Seq<char>> {
    match author {
        Some(name) => Some(name@),
        None => None,
    }
}

/// A commit that declares both a type and a scope, ready to be recorded in
/// the scope tree.
#[derive(Debug)]
pub struct ParsedScope {
    pub scope: String,
    pub type_: String,
    pub author: Option<String>,
}

impl View for ParsedScope {
    type V = Record;

    open spec fn view(&self) -> Record {
        Record { scope: self.scope@, kind: self.type_@, author: author_name(self.author) }
    }
}

/// A commit type below a scope, with the number of commits of that type and
/// the count of each author among them.
#[derive(Debug)]
pub struct TypeNode {
    pub name: String,
    pub count: u32,
    pub authors: Counter,
}

impl View for TypeNode {
    type V = TypeTally;

    open spec fn view(&self) -> TypeTally {
        TypeTally { count: self.count as nat, authors: self.authors@ }
    }
}

impl TypeNode {
    /// No author occurs twice, and the authors account for no more commits
    /// than the type has.
    pub open spec fn wf(&self) -> bool {
        &&& self.authors.wf()
        &&& type_rolled_up(self@)
    }

    /// A type that no commit has had so far.
    pub fn new(name: String) -> (t: TypeNode)
        ensures
            t.wf(),
            t.name == name,
            t@ == (TypeTally { count: 0, authors: Map::empty() }),
    {
        let t = TypeNode { name, count: 0, authors: Counter::new() };
        proof {
            lemma_as_map_empty(t.authors.pairs());
        }
        t
    }

    /// Counts one more commit of this type, for `author` if one is given.
    pub fn record(&mut self, author: Option<String>)
        requires
            old(self).wf(),
            old(self).count < u32::MAX,
        ensures
            final(self).wf(),
            final(self).name == old(self).name,
            final(self)@ == type_after(old(self)@, author_name(author)),
    {
        proof {
            lemma_type_after(self@, author_name(author));
        }
        self.count += 1;
        if let Some(name) = author {
            proof {
                lemma_total_bound(self.authors@, name@);
            }
            self.authors.increment(name);
        }
    }
}

/// A scope, with the number of commits that named it and the types among
/// them.
#[derive(Debug)]
pub struct ScopeNode {
    pub name: String,
    pub count: u32,
    pub types: Vec<TypeNode>,
}

impl View for ScopeNode {
    type V = ScopeTally;

    open spec fn view(&self) -> ScopeTally {
        ScopeTally { count: self.count as nat, types: as_map(self.pairs()) }
    }
}

impl ScopeNode {
    /// The types as names and tallies.
    pub open spec fn pairs(&self) -> Seq<(Seq<char>, TypeTally)> {
        self.types@.map_values(|t: TypeNode| (t.name@, t@))
    }

    /// No type occurs twice, each type is well formed, and the count of the
    /// scope is the sum of the counts of its types.
    pub open spec fn wf(&self) -> bool {
        &&& distinct_keys(self.pairs())
        &&& forall|i: int| 0 <= i < self.types.len() ==> (#[trigger] self.types[i]).wf()
        &&& scope_rolled_up(self@)
    }

    /// A scope that no commit has named so far.
    pub fn new(name: String) -> (node: ScopeNode)
        ensures
            node.wf(),
            node.name == name,
            node@ == (ScopeTally { count: 0, types: Map::empty() }),
    {
        let node = ScopeNode { name, count: 0, types: Vec::new() };
        proof {
            lemma_as_map_empty(node.pairs());
            assert(type_counts(node@.types) =~= Map::<Seq<char>, nat>::empty());
        }
        node
    }

    /// The position of the type `kind` among the types of this scope.
    pub fn find(&self, kind: &String) -> (r: Option<usize>)
        ensures
            match r {
                Some(i) => i < self.types.len() && self.pairs()[i as int].0 == kind@,
                None => !has_key(self.pairs(), kind@),
            },
    {
        let mut i: usize = 0;
        while i < self.types.len()
            invariant
                i <= self.types.len(),
                forall|j: int| 0 <= j < i ==> (#[trigger] self.pairs()[j]).0 != kind@,
            decreases self.types.len() - i,
        {
            if self.types[i].name == *kind {
                return Some(i);
            }
            i += 1;
        }
        None
    }

    /// Counts one more commit in this scope, of type `kind` and by `author`
    /// if one is given.
    pub fn record(&mut self, kind: String, author: Option<String>)
        requires
            old(self).wf(),
            old(self).count < u32::MAX,
        ensures
            final(self).wf(),
            final(self).name == old(self).name,
            final(self)@ == scope_after(old(self)@, kind@, author_name(author)),
    {
        let ghost before = self.pairs();
        let ghost kind_name = kind@;
        proof {
            lemma_as_map_has_key(before, kind_name);
            lemma_as_map_empty(before);
            lemma_scope_after(self@, kind_name, author_name(author));
            lemma_type_counts(self@.types);
            lemma_total_bound(type_counts(self@.types), kind_name);
        }
        let j = match self.find(&kind) {
            Some(j) => {
                proof {
                    lemma_as_map_at(before, j as int);
                }
                j
            },
            None => {
                self.types.push(TypeNode::new(kind));
                proof {
                    lemma_as_map_push(before, kind_name, TypeTally { count: 0, authors: Map::empty() });
                    assert(self.pairs() =~= before.push(
                        (kind_name, TypeTally { count: 0, authors: Map::empty() }),
                    ));
                }
                self.types.len() - 1
            },
        };
        let ghost mid = self.pairs();
        assert(mid[j as int].0 == kind_name);
        assert(mid[j as int].1 == type_node(as_map(before), kind_name));
        self.types[j].record(author);
        self.count += 1;
        proof {
            let after = type_after(mid[j as int].1, author_name(author));
            lemma_as_map_update(mid, j as int, after);
            assert(self.pairs() =~= mid.update(j as int, (kind_name, after)));
            assert(as_map(self.pairs()) =~= as_map(before).insert(kind_name, after));
        }
    }
}

/// The scope tree: for each scope the commits that named it, rolled up by
/// type and by author.
#[derive(Debug)]
pub struct Scope {
    pub nodes: Vec<ScopeNode>,
}

impl View for Scope {
    type V = Map<Seq<char>, ScopeTally>;

    open spec fn view(&self) -> Map<Seq<char>, ScopeTally> {
        as_map(self.pairs())
    }
}

impl Scope {
    /// The scopes as names and tallies.
    pub open spec fn pairs(&self) -> Seq<(Seq<char>, ScopeTally)> {
        self.nodes@.map_values(|node: ScopeNode| (node.name@, node@))
    }

    /// No scope occurs twice, each scope is well formed, and the counts of
    /// the whole tree add up.
    pub open spec fn wf(&self) -> bool {
        &&& distinct_keys(self.pairs())
        &&& forall|i: int| 0 <= i < self.nodes.len() ==> (#[trigger] self.nodes[i]).wf()
        &&& rolled_up(self@)
    }

    /// The tree that holds no scope.
    pub fn new() -> (tree: Scope)
        ensures
            tree.wf(),
            tree@ == Map::<Seq<char>, ScopeTally>::empty(),
    {
        let tree = Scope { nodes: Vec::new() };
        proof {
            lemma_as_map_empty(tree.pairs());
        }
        tree
    }

    /// The position of `scope` among the scopes of the tree.
    pub fn find(&self, scope: &String) -> (r: Option<usize>)
        ensures
            match r {
                Some(i) => i < self.nodes.len() && self.pairs()[i as int].0 == scope@,
                None => !has_key(self.pairs(), scope@),
            },
    {
        let mut i: usize = 0;
        while i < self.nodes.len()
            invariant
                i <= self.nodes.len(),
                forall|j: int| 0 <= j < i ==> (#[trigger] self.pairs()[j]).0 != scope@,
            decreases self.nodes.len() - i,
        {
            if self.nodes[i].name == *scope {
                return Some(i);
            }
            i += 1;
        }
        None
    }
}

/// The outcome of an analysis: how often each commit type and each author
/// occurs among the conventional commits, and the scope tree of those that
/// name a scope.
#[derive(Debug)]
pub struct Analysis {
    pub types: Counter,
    pub authors: Counter,
    pub scope: Scope,
}

/// An analysis as plain values: the two counters as mappings from names to
/// numbers, and the scope tree as a mapping from scopes to their tallies.
pub struct AnalysisView {
    pub types: Map<Seq<char>, nat>,
    pub authors: Map<Seq<char>, nat>,
    pub scope: Map<Seq<char>, ScopeTally>,
}

impl View for Analysis {
    type V = AnalysisView;

    open spec fn view(&self) -> AnalysisView {
        AnalysisView { types: self.types@, authors: self.authors@, scope: self.scope@ }
    }
}

impl Analysis {
    /// Each of the three parts is well formed.
    pub open spec fn wf(&self) -> bool {
        &&& self.types.wf()
        &&& self.authors.wf()
        &&& self.scope.wf()
    }
}

} // verus!
