//! Start order of an app and its transitive dependencies.
//!
//! Apps are nodes, `depends_on` entries are edges to the apps they name.
//! The start order lists dependencies before the apps that need them; among
//! apps that become ready at the same time, ids are taken in ascending order.

use vstd::prelude::*;
use crate::schema::AppConfig;
use crate::text::{chars_of, chars_equal};

verus! {

/// Why no start order could be produced.
#[derive(Debug, PartialEq, Eq)]
pub enum GraphError {
    DependencyCycle,
    MissingDependency(String),
}

/// The dependency graph seen by the start-order computation: node `i` is the
/// app with id `ids[i]`, whose dependencies are named by `deps[i]`.
pub struct DepGraph {
    pub ids: Seq<Seq<char>>,
    pub deps: Seq<Seq<Seq<char>>>,
}

/// The graph of a set of configurations.
pub open spec fn graph_of(apps: Seq<AppConfig>) -> DepGraph {
    DepGraph {
        ids: apps.map_values(|a: AppConfig| a.id@),
        deps: apps.map_values(|a: AppConfig| a.depends_on@.map_values(|d: String| d@)),
    }
}

/// The configurations behind a sequence of borrows.
pub open spec fn derefs(apps: Seq<&AppConfig>) -> Seq<AppConfig> {
    apps.map_values(|a: &AppConfig| *a)
}

/// No two configurations share an id (as keys of a map do not).
pub open spec fn distinct_ids(apps: Seq<AppConfig>) -> bool {
    forall|i: int, j: int|
        0 <= i < apps.len() && 0 <= j < apps.len() && i != j ==> #[trigger] apps[i].id@
            != #[trigger] apps[j].id@
}

/// Strict lexicographic order on character sequences (the order of `String`).
pub open spec fn lex_lt(a: Seq<char>, b: Seq<char>) -> bool {
    exists|k: int|
        #![trigger a.take(k), b.take(k)]
        0 <= k <= a.len() && k <= b.len() && a.take(k) == b.take(k) && ((k == a.len() && k
            < b.len()) || (k < a.len() && k < b.len() && a[k] < b[k]))
}

/// `n` nodes, none visited yet.
pub open spec fn unmarked(n: nat) -> Seq<bool> {
    Seq::new(n, |i: int| false)
}

/// Number of `false` entries.
pub open spec fn count_false(m: Seq<bool>) -> nat
    decreases m.len(),
{
    if m.len() == 0 {
        0
    } else {
        count_false(m.drop_last()) + if m.last() {
            0nat
        } else {
            1nat
        }
    }
}

/// Number of `true` entries.
pub open spec fn count_true(m: Seq<bool>) -> nat
    decreases m.len(),
{
    if m.len() == 0 {
        0
    } else {
        count_true(m.drop_last()) + if m.last() {
            1nat
        } else {
            0nat
        }
    }
}

/// Number of entries of `s` equal to `x`.
pub open spec fn count_name(s: Seq<Seq<char>>, x: Seq<char>) -> nat
    decreases s.len(),
{
    if s.len() == 0 {
        0
    } else {
        count_name(s.drop_last(), x) + if s.last() == x {
            1nat
        } else {
            0nat
        }
    }
}

/// Setting one unset mark lowers the count of unset marks by one.
pub proof fn lemma_count_false_update(m: Seq<bool>, v: int)
    requires
        0 <= v < m.len(),
        !m[v],
    ensures
        count_false(m.update(v, true)) + 1 == count_false(m),
    decreases m.len(),
{
    if v == m.len() - 1 {
        assert(m.update(v, true).drop_last() =~= m.drop_last());
    } else {
        lemma_count_false_update(m.drop_last(), v);
        assert(m.update(v, true).drop_last() =~= m.drop_last().update(v, true));
    }
}

impl DepGraph {
    pub open spec fn size(self) -> int {
        self.ids.len() as int
    }

    pub open spec fn wf(self) -> bool {
        &&& self.deps.len() == self.ids.len()
        &&& self.ids.len() <= usize::MAX
        &&& forall|i: int| 0 <= i < self.deps.len() ==> #[trigger] self.deps[i].len() <= usize::MAX
        &&& forall|i: int, j: int|
            0 <= i < self.ids.len() && 0 <= j < self.ids.len() && i != j ==> #[trigger] self.ids[i]
                != #[trigger] self.ids[j]
    }

    /// Whether some app has id `name`.
    pub open spec fn has(self, name: Seq<char>) -> bool {
        self.ids.contains(name)
    }

    /// The node whose id is `name` (meaningful when `has(name)`).
    pub open spec fn node(self, name: Seq<char>) -> usize {
        choose|i: usize| (i as int) < self.ids.len() && self.ids[i as int] == name
    }

    /// The first name in `s` that no app has.
    pub open spec fn first_missing(self, s: Seq<Seq<char>>) -> Option<Seq<char>>
        decreases s.len(),
    {
        if s.len() == 0 {
            None
        } else if !self.has(s[0]) {
            Some(s[0])
        } else {
            self.first_missing(s.drop_first())
        }
    }

    /// The nodes named by the dependencies of `v`, in order.
    pub open spec fn dep_nodes(self, v: usize) -> Seq<usize> {
        self.deps[v as int].map_values(|d: Seq<char>| self.node(d))
    }

    /// Depth-first collection of the dependency closure: `stack` holds nodes
    /// still to visit (the last is visited first), `marks` the nodes visited.
    /// A visited node whose dependency names no app stops the search with that
    /// name.
    pub open spec fn dfs(self, stack: Seq<usize>, marks: Seq<bool>) -> Result<Seq<bool>, Seq<char>>
        decreases count_false(marks), stack.len(),
    {
        if stack.len() == 0 {
            Ok(marks)
        } else {
            let v = stack.last();
            let rest = stack.drop_last();
            if v as int >= marks.len() || marks[v as int] {
                self.dfs(rest, marks)
            } else {
                proof {
                    lemma_count_false_update(marks, v as int);
                }
                match self.first_missing(self.deps[v as int]) {
                    Some(name) => Err(name),
                    None => self.dfs(rest + self.dep_nodes(v), marks.update(v as int, true)),
                }
            }
        }
    }

    /// How many dependency entries of `c` name node `n`.
    pub open spec fn occurrences(self, c: usize, n: usize) -> nat {
        count_name(self.deps[c as int], self.ids[n as int])
    }

    /// Position, in `s`, of the node with the smallest id.
    pub open spec fn min_pos(self, s: Seq<usize>) -> int
        decreases s.len(),
    {
        if s.len() <= 1 {
            0
        } else {
            let p = self.min_pos(s.drop_last());
            if lex_lt(self.ids[s.last() as int], self.ids[s[p] as int]) {
                s.len() - 1
            } else {
                p
            }
        }
    }

    /// The nodes of `s` in ascending order of id.
    pub open spec fn ascending(self, s: Seq<usize>) -> Seq<usize>
        decreases s.len(),
    {
        if s.len() == 0 {
            Seq::empty()
        } else {
            let p = self.min_pos(s);
            proof {
                self.lemma_min_pos_range(s);
            }
            seq![s[p]] + self.ascending(s.remove(p))
        }
    }

    /// Sorting keeps exactly the members of `s`, and its length.
    pub(crate) proof fn lemma_ascending_members(self, s: Seq<usize>)
        ensures
            self.ascending(s).len() == s.len(),
            forall|x: usize| self.ascending(s).contains(x) <==> s.contains(x),
        decreases s.len(),
    {
        if s.len() > 0 {
            let p = self.min_pos(s);
            self.lemma_min_pos_range(s);
            let r = s.remove(p);
            assert forall|j: int| 0 <= j < r.len() implies r[j] == (if j < p {
                s[j]
            } else {
                s[j + 1]
            }) by {}
            self.lemma_ascending_members(r);
            let a = self.ascending(s);
            assert(a == seq![s[p]] + self.ascending(r));
            assert forall|x: usize| a.contains(x) <==> s.contains(x) by {
                if a.contains(x) {
                    let i = choose|i: int| 0 <= i < a.len() && a[i] == x;
                    if i == 0 {
                        assert(s[p] == x);
                    } else {
                        assert(self.ascending(r)[i - 1] == x);
                        assert(self.ascending(r).contains(x));
                        assert(r.contains(x));
                        let j = choose|j: int| 0 <= j < r.len() && r[j] == x;
                        if j < p {
                            assert(s[j] == x);
                        } else {
                            assert(s[j + 1] == x);
                        }
                    }
                }
                if s.contains(x) {
                    let i = choose|i: int| 0 <= i < s.len() && s[i] == x;
                    if i == p {
                        assert(a[0] == x);
                    } else if i < p {
                        assert(r[i] == x);
                        assert(r.contains(x));
                        assert(self.ascending(r).contains(x));
                        let j = choose|j: int| 0 <= j < self.ascending(r).len() && self.ascending(r)[j] == x;
                        assert(a[j + 1] == x);
                    } else {
                        assert(r[i - 1] == x);
                        assert(r.contains(x));
                        assert(self.ascending(r).contains(x));
                        let j = choose|j: int| 0 <= j < self.ascending(r).len() && self.ascending(r)[j] == x;
                        assert(a[j + 1] == x);
                    }
                }
            }
        }
    }

    /// The position of the least element is within the sequence.
    pub proof fn lemma_min_pos_range(self, s: Seq<usize>)
        requires
            s.len() >= 1,
        ensures
            0 <= self.min_pos(s) < s.len(),
        decreases s.len(),
    {
        if s.len() > 1 {
            self.lemma_min_pos_range(s.drop_last());
        }
    }

    /// In-degree after emitting `n`: each needed node loses one per dependency
    /// entry naming `n` (never going below zero).
    pub open spec fn decremented(self, needed: Seq<bool>, indeg: Seq<usize>, n: usize) -> Seq<usize> {
        Seq::new(
            indeg.len(),
            |c: int|
                if c < needed.len() && needed[c] {
                    if indeg[c] >= self.occurrences(c as usize, n) {
                        (indeg[c] - self.occurrences(c as usize, n)) as usize
                    } else {
                        0usize
                    }
                } else {
                    indeg[c]
                },
        )
    }

    /// Nodes below `k`, in index order, whose in-degree drops to zero.
    pub open spec fn freed(self, old_deg: Seq<usize>, new_deg: Seq<usize>, k: int) -> Seq<usize>
        decreases k,
    {
        if k <= 0 {
            Seq::empty()
        } else if old_deg[k - 1] > 0 && new_deg[k - 1] == 0 {
            self.freed(old_deg, new_deg, k - 1).push((k - 1) as usize)
        } else {
            self.freed(old_deg, new_deg, k - 1)
        }
    }

    /// Needed nodes below `k`, in index order, with in-degree zero.
    pub open spec fn sources(self, needed: Seq<bool>, indeg: Seq<usize>, k: int) -> Seq<usize>
        decreases k,
    {
        if k <= 0 {
            Seq::empty()
        } else if needed[k - 1] && indeg[k - 1] == 0 {
            self.sources(needed, indeg, k - 1).push((k - 1) as usize)
        } else {
            self.sources(needed, indeg, k - 1)
        }
    }

    /// Kahn's algorithm on the needed nodes: emit the head of the queue, then
    /// queue the nodes it frees in ascending id order.
    pub open spec fn kahn(
        self,
        needed: Seq<bool>,
        queue: Seq<usize>,
        indeg: Seq<usize>,
        order: Seq<usize>,
        fuel: nat,
    ) -> Seq<usize>
        decreases fuel,
    {
        if queue.len() == 0 || fuel == 0 {
            order
        } else {
            let n = queue[0];
            let next = self.decremented(needed, indeg, n);
            self.kahn(
                needed,
                queue.drop_first() + self.ascending(self.freed(indeg, next, indeg.len() as int)),
                next,
                order.push(n),
                (fuel - 1) as nat,
            )
        }
    }

    /// Initial in-degree of each needed node: its number of dependency entries.
    pub open spec fn initial_indeg(self, needed: Seq<bool>) -> Seq<usize> {
        Seq::new(
            self.ids.len(),
            |c: int|
                if needed[c] {
                    self.deps[c].len() as usize
                } else {
                    0usize
                },
        )
    }

    /// The start order of the needed nodes.
    pub open spec fn kahn_order(self, needed: Seq<bool>) -> Seq<usize> {
        let indeg = self.initial_indeg(needed);
        self.kahn(
            needed,
            self.ascending(self.sources(needed, indeg, self.ids.len() as int)),
            indeg,
            Seq::empty(),
            self.ids.len() as nat,
        )
    }

    /// What resolving the start order of `root` gives.
    pub open spec fn start_order(self, root: Seq<char>) -> StartOrder {
        if !self.has(root) {
            StartOrder::Missing(root)
        } else {
            match self.dfs(seq![self.node(root)], unmarked(self.ids.len())) {
                Err(name) => StartOrder::Missing(name),
                Ok(needed) => {
                    let order = self.kahn_order(needed);
                    if order.len() != count_true(needed) {
                        StartOrder::Cycle
                    } else {
                        StartOrder::Order(order.map_values(|i: usize| self.ids[i as int]))
                    }
                },
            }
        }
    }
}

/// Outcome of the start-order computation, over ids.
pub enum StartOrder {
    Order(Seq<Seq<char>>),
    Cycle,
    Missing(Seq<char>),
}

/// Whether `r` is the executable form of `o`.
pub open spec fn matches_outcome(r: Result<Vec<String>, GraphError>, o: StartOrder) -> bool {
    match o {
        StartOrder::Order(names) => r matches Ok(v) && v@.map_values(|s: String| s@) == names,
        StartOrder::Cycle => r matches Err(GraphError::DependencyCycle),
        StartOrder::Missing(name) => r matches Err(GraphError::MissingDependency(m)) && m@
            == name,
    }
}


/// Whether `a` comes strictly before `b` in lexicographic order.
pub fn lex_less(a: &Vec<char>, b: &Vec<char>) -> (r: bool)
    ensures
        r == lex_lt(a@, b@),
{
    let n = if a.len() < b.len() {
        a.len()
    } else {
        b.len()
    };
    let mut i: usize = 0;
    while i < n
        invariant
            n <= a@.len(),
            n <= b@.len(),
            n == a@.len() || n == b@.len(),
            i <= n,
            a@.take(i as int) == b@.take(i as int),
        decreases n - i,
    {
        if a[i] != b[i] {
            let r = a[i] < b[i];
            proof {
                if r {
                    assert(a@.take(i as int) == b@.take(i as int));
                } else {
                    assert forall|k: int|
                        0 <= k <= a@.len() && k <= b@.len() && a@.take(k) == b@.take(k) implies !((
                    k == a@.len() && k < b@.len()) || (k < a@.len() && k < b@.len() && a@[k]
                        < b@[k])) by {
                        if k > i {
                            assert(a@.take(k)[i as int] == b@.take(k)[i as int]);
                        } else if k < i {
                            assert(a@.take(i as int)[k] == b@.take(i as int)[k]);
                        }
                    }
                }
            }
            return r;
        }
        assert(a@.take(i + 1) =~= a@.take(i as int).push(a@[i as int]));
        assert(b@.take(i + 1) =~= b@.take(i as int).push(b@[i as int]));
        i = i + 1;
    }
    let r = a.len() < b.len();
    proof {
        if !r {
            assert forall|k: int|
                0 <= k <= a@.len() && k <= b@.len() && a@.take(k) == b@.take(k) implies !((k
                == a@.len() && k < b@.len()) || (k < a@.len() && k < b@.len() && a@[k]
                < b@[k])) by {
                if k < n {
                    assert(a@.take(n as int)[k] == b@.take(n as int)[k]);
                    assert(a@.take(k + 1)[k] == a@[k]);
                }
            }
        }
    }
    r
}

/// Executable copy of the graph: ids and dependency names as characters.
pub open spec fn mirrors(g: DepGraph, ids: Seq<Vec<char>>, deps: Seq<Vec<Vec<char>>>) -> bool {
    &&& ids.len() == g.ids.len()
    &&& deps.len() == g.ids.len()
    &&& g.deps.len() == g.ids.len()
    &&& forall|i: int| 0 <= i < ids.len() ==> (#[trigger] ids[i])@ == g.ids[i]
    &&& forall|i: int|
        0 <= i < deps.len() ==> (#[trigger] deps[i])@.len() == g.deps[i].len() && forall|k: int|
            0 <= k < deps[i]@.len() ==> (#[trigger] deps[i]@[k])@ == g.deps[i][k]
}

proof fn lemma_node_is(g: DepGraph, name: Seq<char>, i: int)
    requires
        g.wf(),
        0 <= i < g.ids.len(),
        g.ids.len() <= usize::MAX,
        g.ids[i] == name,
    ensures
        g.node(name) == i,
        g.has(name),
{
    let w = i as usize;
    assert(w as int == i);
    assert((w as int) < g.ids.len() && g.ids[w as int] == name);
    let j = g.node(name);
    assert(g.ids[j as int] == name);
}

/// The node named `name`, if any.
fn find_node(ids: &Vec<Vec<char>>, name: &Vec<char>, Ghost(g): Ghost<DepGraph>) -> (r: Option<
    usize,
>)
    requires
        g.wf(),
        ids@.len() == g.ids.len(),
        forall|i: int| 0 <= i < ids@.len() ==> (#[trigger] ids@[i])@ == g.ids[i],
    ensures
        match r {
            Some(i) => g.has(name@) && g.node(name@) == i && (i as int) < g.ids.len(),
            None => !g.has(name@),
        },
{
    let n = ids.len();
    for i in 0..n
        invariant
            n == ids@.len(),
            g.wf(),
            ids@.len() == g.ids.len(),
            forall|i: int| 0 <= i < ids@.len() ==> (#[trigger] ids@[i])@ == g.ids[i],
            forall|j: int| 0 <= j < i ==> g.ids[j] != name@,
    {
        if chars_equal(&ids[i], name) {
            proof {
                lemma_node_is(g, name@, i as int);
            }
            return Some(i);
        }
    }
    None
}

/// Copies ids and dependency names into character vectors.
fn mirror_graph(apps: &Vec<&AppConfig>) -> (r: (Vec<Vec<char>>, Vec<Vec<Vec<char>>>))
    ensures
        mirrors(graph_of(derefs(apps@)), r.0@, r.1@),
{
    let ghost g = graph_of(derefs(apps@));
    let mut ids: Vec<Vec<char>> = Vec::new();
    let mut deps: Vec<Vec<Vec<char>>> = Vec::new();
    let n = apps.len();
    for i in 0..n
        invariant
            n == apps@.len(),
            g == graph_of(derefs(apps@)),
            ids@.len() == i,
            deps@.len() == i,
            forall|j: int| 0 <= j < i ==> (#[trigger] ids@[j])@ == g.ids[j],
            forall|j: int|
                0 <= j < i ==> (#[trigger] deps@[j])@.len() == g.deps[j].len() && forall|k: int|
                    0 <= k < deps@[j]@.len() ==> (#[trigger] deps@[j]@[k])@ == g.deps[j][k],
    {
        ids.push(chars_of(apps[i].id.as_str()));
        let mut ds: Vec<Vec<char>> = Vec::new();
        let m = apps[i].depends_on.len();
        for k in 0..m
            invariant
                (i as int) < apps@.len(),
                n == apps@.len(),
                m == apps@[i as int].depends_on@.len(),
                ds@.len() == k,
                forall|q: int|
                    0 <= q < k ==> (#[trigger] ds@[q])@ == apps@[i as int].depends_on@[q]@,
        {
            ds.push(chars_of(apps[i].depends_on[k].as_str()));
        }
        proof {
            assert(g.deps[i as int] == apps@[i as int].depends_on@.map_values(|d: String| d@));
        }
        deps.push(ds);
    }
    (ids, deps)
}

proof fn lemma_first_missing_at(g: DepGraph, s: Seq<Seq<char>>, k: int)
    requires
        0 <= k < s.len(),
        forall|j: int| 0 <= j < k ==> g.has(#[trigger] s[j]),
        !g.has(s[k]),
    ensures
        g.first_missing(s) == Some(s[k]),
    decreases k,
{
    if k > 0 {
        assert(g.has(s[0]));
        let t = s.drop_first();
        assert forall|j: int| 0 <= j < k - 1 implies g.has(#[trigger] t[j]) by {
            assert(t[j] == s[j + 1]);
        }
        lemma_first_missing_at(g, t, k - 1);
    }
}

proof fn lemma_first_missing_none(g: DepGraph, s: Seq<Seq<char>>)
    requires
        forall|j: int| 0 <= j < s.len() ==> g.has(#[trigger] s[j]),
    ensures
        g.first_missing(s) is None,
    decreases s.len(),
{
    if s.len() > 0 {
        let t = s.drop_first();
        assert forall|j: int| 0 <= j < t.len() implies g.has(#[trigger] t[j]) by {
            assert(t[j] == s[j + 1]);
        }
        lemma_first_missing_none(g, t);
    }
}

/// `r` is the executable form of the search result `d`.
pub open spec fn same_search_result(r: Result<Vec<bool>, String>, d: Result<Seq<bool>, Seq<char>>) -> bool {
    match d {
        Ok(m) => r is Ok && r->Ok_0@ == m,
        Err(name) => r is Err && r->Err_0@ == name,
    }
}

/// Depth-first collection of the nodes `root` depends on, transitively.
fn collect_needed(
    apps: &Vec<&AppConfig>,
    ids: &Vec<Vec<char>>,
    deps: &Vec<Vec<Vec<char>>>,
    root: usize,
) -> (r: Result<Vec<bool>, String>)
    requires
        graph_of(derefs(apps@)).wf(),
        mirrors(graph_of(derefs(apps@)), ids@, deps@),
        (root as int) < apps@.len(),
    ensures
        same_search_result(r, graph_of(derefs(apps@)).dfs(seq![root], unmarked(apps@.len()))),
        r is Ok ==> r->Ok_0@.len() == apps@.len(),
{
    let ghost g = graph_of(derefs(apps@));
    let n = apps.len();
    let mut marks: Vec<bool> = Vec::new();
    for i in 0..n
        invariant
            marks@ == Seq::new(i as nat, |j: int| false),
    {
        marks.push(false);
        assert(marks@ =~= Seq::new((i + 1) as nat, |j: int| false));
    }
    let mut stack: Vec<usize> = Vec::new();
    stack.push(root);
    let ghost goal = g.dfs(seq![root], unmarked(n as nat));
    assert(marks@ =~= unmarked(n as nat));
    assert(goal == graph_of(derefs(apps@)).dfs(seq![root], unmarked(apps@.len())));
    assert(stack@ =~= seq![root]);
    loop
        invariant
            g == graph_of(derefs(apps@)),
            g.wf(),
            mirrors(g, ids@, deps@),
            n == apps@.len(),
            marks@.len() == n,
            forall|j: int| 0 <= j < stack@.len() ==> (#[trigger] stack@[j] as int) < n,
            g.dfs(stack@, marks@) == goal,
            goal == graph_of(derefs(apps@)).dfs(seq![root], unmarked(apps@.len())),
        decreases count_false(marks@), stack@.len(),
    {
        let ghost old_stack = stack@;
        let ghost old_marks = marks@;
        match stack.pop() {
            None => {
                assert(old_stack.len() == 0);
                assert(g.dfs(old_stack, old_marks) == Ok::<Seq<bool>, Seq<char>>(old_marks));
                assert(goal == Ok::<Seq<bool>, Seq<char>>(marks@));
                return Ok(marks);
            },
            Some(v) => {
                assert(old_stack.last() == v && old_stack.drop_last() =~= stack@);
                if marks[v] {
                    continue;
                }
                proof {
                    lemma_count_false_update(marks@, v as int);
                }
                let m = deps[v].len();
                let ghost base = stack@;
                for k in 0..m
                    invariant
                        g == graph_of(derefs(apps@)),
                        g.wf(),
                        mirrors(g, ids@, deps@),
                        (v as int) < n,
                        n == apps@.len(),
                        m == g.deps[v as int].len(),
                        g.dfs(old_stack, old_marks) == goal,
                        goal == graph_of(derefs(apps@)).dfs(seq![root], unmarked(apps@.len())),
                        old_stack.len() > 0,
                        old_stack.last() == v,
                        old_stack.drop_last() == base,
                        marks@ == old_marks,
                        marks@.len() == n,
                        !old_marks[v as int],
                        stack@ == base + g.dep_nodes(v).take(k as int),
                        forall|j: int| 0 <= j < k ==> g.has(#[trigger] g.deps[v as int][j]),
                        forall|j: int| 0 <= j < stack@.len() ==> (#[trigger] stack@[j] as int) < n,
                {
                    match find_node(ids, &deps[v][k], Ghost(g)) {
                        None => {
                            proof {
                                lemma_first_missing_at(g, g.deps[v as int], k as int);
                                assert(g.deps[v as int][k as int]
                                    == apps@[v as int].depends_on@[k as int]@);
                            }
                            return Err(apps[v].depends_on[k].clone());
                        },
                        Some(d) => {
                            stack.push(d);
                            assert(g.dep_nodes(v).take(k + 1) =~= g.dep_nodes(v).take(
                                k as int,
                            ).push(d));
                        },
                    }
                }
                proof {
                    lemma_first_missing_none(g, g.deps[v as int]);
                    assert(g.dep_nodes(v).take(m as int) =~= g.dep_nodes(v));
                }
                marks.set(v, true);
                assert(g.dfs(old_stack, old_marks) == g.dfs(stack@, marks@));
            },
        }
    }
}


/// Number of entries of `list` equal to `name`.
fn count_matching(list: &Vec<Vec<char>>, name: &Vec<char>, Ghost(s): Ghost<Seq<Seq<char>>>) -> (r:
    usize)
    requires
        list@.len() == s.len(),
        forall|k: int| 0 <= k < s.len() ==> (#[trigger] list@[k])@ == s[k],
    ensures
        r == count_name(s, name@),
{
    let m = list.len();
    let mut total: usize = 0;
    for k in 0..m
        invariant
            m == s.len(),
            list@.len() == s.len(),
            forall|q: int| 0 <= q < s.len() ==> (#[trigger] list@[q])@ == s[q],
            total == count_name(s.take(k as int), name@),
            total <= k,
    {
        assert(s.take(k + 1).drop_last() =~= s.take(k as int));
        if chars_equal(&list[k], name) {
            total = total + 1;
        }
    }
    assert(s.take(m as int) =~= s);
    total
}

/// Position of the node with the smallest id in `s`.
fn min_position(ids: &Vec<Vec<char>>, s: &Vec<usize>, Ghost(g): Ghost<DepGraph>) -> (r: usize)
    requires
        s@.len() >= 1,
        ids@.len() == g.ids.len(),
        forall|i: int| 0 <= i < ids@.len() ==> (#[trigger] ids@[i])@ == g.ids[i],
        forall|j: int| 0 <= j < s@.len() ==> (#[trigger] s@[j] as int) < g.ids.len(),
    ensures
        r as int == g.min_pos(s@),
        (r as int) < s@.len(),
{
    let m = s.len();
    let mut best: usize = 0;
    let mut j: usize = 1;
    while j < m
        invariant
            m == s@.len(),
            1 <= j <= m,
            ids@.len() == g.ids.len(),
            forall|i: int| 0 <= i < ids@.len() ==> (#[trigger] ids@[i])@ == g.ids[i],
            forall|q: int| 0 <= q < s@.len() ==> (#[trigger] s@[q] as int) < g.ids.len(),
            best as int == g.min_pos(s@.take(j as int)),
            (best as int) < j,
        decreases m - j,
    {
        let ghost t = s@.take(j + 1);
        assert(t.drop_last() =~= s@.take(j as int));
        assert(t.last() == s@[j as int]);
        assert(t[best as int] == s@[best as int]);
        if lex_less(&ids[s[j]], &ids[s[best]]) {
            best = j;
        }
        j = j + 1;
    }
    assert(s@.take(m as int) =~= s@);
    best
}

/// Sorts node indices by ascending id.
fn sort_ascending(ids: &Vec<Vec<char>>, s: Vec<usize>, Ghost(g): Ghost<DepGraph>) -> (r: Vec<
    usize,
>)
    requires
        ids@.len() == g.ids.len(),
        forall|i: int| 0 <= i < ids@.len() ==> (#[trigger] ids@[i])@ == g.ids[i],
        forall|j: int| 0 <= j < s@.len() ==> (#[trigger] s@[j] as int) < g.ids.len(),
    ensures
        r@ == g.ascending(s@),
{
    let ghost s0 = s@;
    let mut rest = s;
    let mut out: Vec<usize> = Vec::new();
    while rest.len() > 0
        invariant
            ids@.len() == g.ids.len(),
            forall|i: int| 0 <= i < ids@.len() ==> (#[trigger] ids@[i])@ == g.ids[i],
            forall|j: int| 0 <= j < rest@.len() ==> (#[trigger] rest@[j] as int) < g.ids.len(),
            out@ + g.ascending(rest@) == g.ascending(s0),
        decreases rest@.len(),
    {
        let ghost before = rest@;
        let p = min_position(ids, &rest, Ghost(g));
        let x = rest.remove(p);
        assert(g.ascending(before) == seq![x] + g.ascending(rest@));
        assert(out@.push(x) + g.ascending(rest@) =~= out@ + g.ascending(before));
        out.push(x);
        assert forall|j: int| 0 <= j < rest@.len() implies (#[trigger] rest@[j] as int)
            < g.ids.len() by {
            if j < p {
                assert(rest@[j] == before[j]);
            } else {
                assert(rest@[j] == before[j + 1]);
            }
        }
    }
    assert(out@ =~= g.ascending(s0));
    out
}

/// In-degrees after emitting node `n`.
fn decrement(
    ids: &Vec<Vec<char>>,
    deps: &Vec<Vec<Vec<char>>>,
    needed: &Vec<bool>,
    indeg: &Vec<usize>,
    n: usize,
    Ghost(g): Ghost<DepGraph>,
) -> (r: Vec<usize>)
    requires
        mirrors(g, ids@, deps@),
        needed@.len() == g.ids.len(),
        indeg@.len() == g.ids.len(),
        (n as int) < g.ids.len(),
    ensures
        r@ == g.decremented(needed@, indeg@, n),
{
    let size = indeg.len();
    let mut out: Vec<usize> = Vec::new();
    for c in 0..size
        invariant
            size == indeg@.len(),
            mirrors(g, ids@, deps@),
            needed@.len() == g.ids.len(),
            indeg@.len() == g.ids.len(),
            (n as int) < g.ids.len(),
            out@.len() == c,
            forall|q: int| 0 <= q < c ==> out@[q] == #[trigger] g.decremented(needed@, indeg@, n)[q],
    {
        if needed[c] {
            let k = count_matching(&deps[c], &ids[n], Ghost(g.deps[c as int]));
            if indeg[c] >= k {
                out.push(indeg[c] - k);
            } else {
                out.push(0);
            }
        } else {
            out.push(indeg[c]);
        }
    }
    assert(out@ =~= g.decremented(needed@, indeg@, n));
    out
}

/// Nodes whose in-degree drops to zero, in index order.
fn freed_nodes(old_deg: &Vec<usize>, new_deg: &Vec<usize>, Ghost(g): Ghost<DepGraph>) -> (r: Vec<
    usize,
>)
    requires
        old_deg@.len() == new_deg@.len(),
    ensures
        r@ == g.freed(old_deg@, new_deg@, old_deg@.len() as int),
        forall|j: int| 0 <= j < r@.len() ==> (#[trigger] r@[j] as int) < old_deg@.len(),
{
    let size = old_deg.len();
    let mut out: Vec<usize> = Vec::new();
    for c in 0..size
        invariant
            size == old_deg@.len(),
            old_deg@.len() == new_deg@.len(),
            out@ == g.freed(old_deg@, new_deg@, c as int),
            forall|j: int| 0 <= j < out@.len() ==> (#[trigger] out@[j] as int) < c,
    {
        if old_deg[c] > 0 && new_deg[c] == 0 {
            out.push(c);
        }
    }
    out
}

/// Needed nodes with in-degree zero, in index order.
fn source_nodes(needed: &Vec<bool>, indeg: &Vec<usize>, Ghost(g): Ghost<DepGraph>) -> (r: Vec<
    usize,
>)
    requires
        needed@.len() == indeg@.len(),
    ensures
        r@ == g.sources(needed@, indeg@, needed@.len() as int),
        forall|j: int| 0 <= j < r@.len() ==> (#[trigger] r@[j] as int) < needed@.len(),
{
    let size = needed.len();
    let mut out: Vec<usize> = Vec::new();
    for c in 0..size
        invariant
            size == needed@.len(),
            needed@.len() == indeg@.len(),
            out@ == g.sources(needed@, indeg@, c as int),
            forall|j: int| 0 <= j < out@.len() ==> (#[trigger] out@[j] as int) < c,
    {
        if needed[c] && indeg[c] == 0 {
            out.push(c);
        }
    }
    out
}

/// Kahn's algorithm over the needed nodes.
fn kahn_order(
    ids: &Vec<Vec<char>>,
    deps: &Vec<Vec<Vec<char>>>,
    needed: &Vec<bool>,
    Ghost(g): Ghost<DepGraph>,
) -> (r: Vec<usize>)
    requires
        mirrors(g, ids@, deps@),
        needed@.len() == g.ids.len(),
    ensures
        r@ == g.kahn_order(needed@),
        forall|j: int| 0 <= j < r@.len() ==> (#[trigger] r@[j] as int) < g.ids.len(),
{
    let size = ids.len();
    let mut indeg: Vec<usize> = Vec::new();
    for c in 0..size
        invariant
            size == g.ids.len(),
            mirrors(g, ids@, deps@),
            needed@.len() == g.ids.len(),
            indeg@.len() == c,
            forall|q: int| 0 <= q < c ==> indeg@[q] == #[trigger] g.initial_indeg(needed@)[q],
    {
        if needed[c] {
            indeg.push(deps[c].len());
        } else {
            indeg.push(0);
        }
    }
    assert(indeg@ =~= g.initial_indeg(needed@));
    let start = source_nodes(needed, &indeg, Ghost(g));
    let ghost st = start@;
    let mut queue = sort_ascending(ids, start, Ghost(g));
    let mut order: Vec<usize> = Vec::new();
    let mut fuel: usize = size;
    let ghost goal = g.kahn_order(needed@);
    proof {
        let src = g.sources(needed@, indeg@, size as int);
        g.lemma_ascending_members(src);
        assert forall|j: int| 0 <= j < queue@.len() implies (#[trigger] queue@[j] as int)
            < g.ids.len() by {
            assert(g.ascending(src).contains(queue@[j]));
            assert(st.contains(queue@[j]));
            let i = choose|i: int| 0 <= i < st.len() && st[i] == queue@[j];
            assert((st[i] as int) < needed@.len());
        }
    }
    while queue.len() > 0 && fuel > 0
        invariant
            size == g.ids.len(),
            mirrors(g, ids@, deps@),
            needed@.len() == g.ids.len(),
            indeg@.len() == g.ids.len(),
            goal == g.kahn_order(needed@),
            g.kahn(needed@, queue@, indeg@, order@, fuel as nat) == goal,
            forall|j: int| 0 <= j < queue@.len() ==> (#[trigger] queue@[j] as int) < g.ids.len(),
            forall|j: int| 0 <= j < order@.len() ==> (#[trigger] order@[j] as int) < g.ids.len(),
        decreases fuel,
    {
        let ghost q0 = queue@;
        let ghost d0 = indeg@;
        let ghost o0 = order@;
        let n = queue.remove(0);
        let next = decrement(ids, deps, needed, &indeg, n, Ghost(g));
        let batch = freed_nodes(&indeg, &next, Ghost(g));
        assert(forall|j: int| 0 <= j < batch@.len() ==> (#[trigger] batch@[j] as int) < indeg@.len());
        proof {
            g.lemma_ascending_members(batch@);
        }
        let ghost b = batch@;
        let sorted = sort_ascending(ids, batch, Ghost(g));
        proof {
            assert forall|j: int| 0 <= j < sorted@.len() implies (#[trigger] sorted@[j] as int)
                < g.ids.len() by {
                assert(g.ascending(b).contains(sorted@[j]));
                assert(b.contains(sorted@[j]));
                let i = choose|i: int| 0 <= i < b.len() && b[i] == sorted@[j];
                assert((b[i] as int) < g.ids.len());
            }
        }
        let m = sorted.len();
        for k in 0..m
            invariant
                m == sorted@.len(),
                queue@ == q0.drop_first() + sorted@.take(k as int),
                forall|j: int| 0 <= j < sorted@.len() ==> (#[trigger] sorted@[j] as int) < g.ids.len(),
                forall|j: int| 0 <= j < q0.len() ==> (#[trigger] q0[j] as int) < g.ids.len(),
                forall|j: int| 0 <= j < queue@.len() ==> (#[trigger] queue@[j] as int) < g.ids.len(),
        {
            queue.push(sorted[k]);
            assert(sorted@.take(k + 1) =~= sorted@.take(k as int).push(sorted@[k as int]));
            assert(queue@ =~= q0.drop_first() + sorted@.take(k + 1));
        }
        assert(sorted@.take(m as int) =~= sorted@);
        order.push(n);
        indeg = next;
        fuel = fuel - 1;
        assert(g.kahn(needed@, q0, d0, o0, (fuel + 1) as nat) == g.kahn(
            needed@,
            queue@,
            indeg@,
            order@,
            fuel as nat,
        ));
    }
    order
}


fn count_marked(m: &Vec<bool>) -> (r: usize)
    ensures
        r == count_true(m@),
{
    let n = m.len();
    let mut total: usize = 0;
    for i in 0..n
        invariant
            n == m@.len(),
            total == count_true(m@.take(i as int)),
            total <= i,
    {
        assert(m@.take(i + 1).drop_last() =~= m@.take(i as int));
        if m[i] {
            total = total + 1;
        }
    }
    assert(m@.take(n as int) =~= m@);
    total
}

/// Distinct ids give a well-formed graph.
pub(crate) proof fn lemma_graph_wf(apps: Seq<AppConfig>)
    requires
        distinct_ids(apps),
        apps.len() <= usize::MAX,
    ensures
        graph_of(apps).wf(),
{
    let g = graph_of(apps);
    assert forall|i: int| 0 <= i < g.deps.len() implies #[trigger] g.deps[i].len() <= usize::MAX by {
        assert(g.deps[i].len() == apps[i].depends_on@.len());
        assert(apps[i].depends_on@.len() == apps[i].depends_on.len());
    }
    assert forall|i: int, j: int|
        0 <= i < g.ids.len() && 0 <= j < g.ids.len() && i != j implies #[trigger] g.ids[i]
        != #[trigger] g.ids[j] by {
        assert(g.ids[i] == apps[i].id@);
        assert(g.ids[j] == apps[j].id@);
    }
}

/// Topological start order for `root` and its transitive `depends_on`.
/// Dependencies come first (B before A when A depends on B); apps that become
/// ready together start in ascending id order.
pub fn resolve_start_order(root: &str, apps: &Vec<AppConfig>) -> (r: Result<Vec<String>, GraphError>)
    requires
        distinct_ids(apps@),
    ensures
        matches_outcome(r, graph_of(apps@).start_order(root@)),
{
    let mut refs: Vec<&AppConfig> = Vec::new();
    let n = apps.len();
    for i in 0..n
        invariant
            n == apps@.len(),
            refs@.len() == i,
            forall|j: int| 0 <= j < i ==> *refs@[j] == apps@[j],
    {
        refs.push(&apps[i]);
    }
    assert(derefs(refs@) =~= apps@);
    resolve_start_order_among(root, &refs)
}

/// `resolve_start_order` over borrowed configurations.
pub fn resolve_start_order_among(root: &str, apps: &Vec<&AppConfig>) -> (r: Result<
    Vec<String>,
    GraphError,
>)
    requires
        distinct_ids(derefs(apps@)),
    ensures
        matches_outcome(r, graph_of(derefs(apps@)).start_order(root@)),
{
    let ghost g = graph_of(derefs(apps@));
    let total = apps.len();
    proof {
        assert(derefs(apps@).len() == total);
        lemma_graph_wf(derefs(apps@));
    }
    let (ids, deps) = mirror_graph(apps);
    let root_chars = chars_of(root);
    let root_node = match find_node(&ids, &root_chars, Ghost(g)) {
        None => {
            return Err(GraphError::MissingDependency(root.to_owned()));
        },
        Some(v) => v,
    };
    let needed = match collect_needed(apps, &ids, &deps, root_node) {
        Err(name) => {
            return Err(GraphError::MissingDependency(name));
        },
        Ok(m) => m,
    };
    let order = kahn_order(&ids, &deps, &needed, Ghost(g));
    if order.len() != count_marked(&needed) {
        return Err(GraphError::DependencyCycle);
    }
    let mut names: Vec<String> = Vec::new();
    let m = order.len();
    for k in 0..m
        invariant
            m == order@.len(),
            g == graph_of(derefs(apps@)),
            forall|j: int| 0 <= j < order@.len() ==> (#[trigger] order@[j] as int) < g.ids.len(),
            names@.len() == k,
            forall|j: int| 0 <= j < k ==> (#[trigger] names@[j])@ == g.ids[order@[j] as int],
    {
        names.push(apps[order[k]].id.clone());
    }
    assert(names@.map_values(|s: String| s@) =~= order@.map_values(|i: usize| g.ids[i as int]));
    Ok(names)
}

} // verus!
