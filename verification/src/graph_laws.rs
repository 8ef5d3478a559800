//! What the start order guarantees: it lists exactly the root and its
//! transitive dependencies, each after everything it depends on; it is refused
//! exactly when a needed app is not registered or the needed apps form a cycle.

use vstd::prelude::*;
use crate::graph::{DepGraph, StartOrder, count_true, count_false, count_name, unmarked};

verus! {

impl DepGraph {
    /// App `u` lists app `v` among its dependencies.
    pub open spec fn depends(self, u: usize, v: usize) -> bool {
        (v as int) < self.ids.len() && self.deps[u as int].contains(self.ids[v as int])
    }

    /// `p` is a chain of nodes, each depending on the next.
    pub open spec fn is_path(self, p: Seq<usize>) -> bool {
        &&& p.len() >= 1
        &&& forall|i: int| 0 <= i < p.len() ==> (#[trigger] p[i] as int) < self.ids.len()
        &&& forall|i: int| 0 <= i < p.len() - 1 ==> self.depends(#[trigger] p[i], p[i + 1])
    }

    /// `b` is `a` or one of its transitive dependencies.
    pub open spec fn reaches(self, a: usize, b: usize) -> bool {
        exists|p: Seq<usize>| #[trigger] self.is_path(p) && p[0] == a && p.last() == b
    }

    /// The app named `x` is needed to start the app named `root`.
    pub open spec fn needed_by(self, root: Seq<char>, x: Seq<char>) -> bool {
        self.has(root) && self.has(x) && self.reaches(self.node(root), self.node(x))
    }

    /// The root and every app it needs name only registered dependencies.
    pub open spec fn closure_complete(self, root: Seq<char>) -> bool {
        &&& self.has(root)
        &&& forall|v: usize, k: int|
            #![trigger self.reaches(self.node(root), v), self.deps[v as int][k]]
            (v as int) < self.ids.len() && self.reaches(self.node(root), v) && 0 <= k
                < self.deps[v as int].len() ==> self.has(self.deps[v as int][k])
    }

    /// In `names`, every app comes after all the apps it depends on.
    pub open spec fn dependencies_first(self, names: Seq<Seq<char>>) -> bool {
        forall|i: int, k: int|
            #![trigger names[i], self.deps[self.node(names[i]) as int][k]]
            0 <= i < names.len() && 0 <= k < self.deps[self.node(names[i]) as int].len()
                ==> names.take(i).contains(self.deps[self.node(names[i]) as int][k])
    }

    /// `names` is a start order for `root`: each needed app exactly once,
    /// dependencies first.
    pub open spec fn valid_start_order(self, root: Seq<char>, names: Seq<Seq<char>>) -> bool {
        &&& names.no_duplicates()
        &&& forall|x: Seq<char>| #[trigger] names.contains(x) <==> self.needed_by(root, x)
        &&& self.dependencies_first(names)
    }
}

proof fn lemma_reaches_self(g: DepGraph, a: usize)
    requires
        (a as int) < g.ids.len(),
    ensures
        g.reaches(a, a),
{
    let p = seq![a];
    assert(g.is_path(p));
}

proof fn lemma_reaches_step(g: DepGraph, a: usize, b: usize, c: usize)
    requires
        g.reaches(a, b),
        g.depends(b, c),
    ensures
        g.reaches(a, c),
{
    let p = choose|p: Seq<usize>| #[trigger] g.is_path(p) && p[0] == a && p.last() == b;
    let q = p.push(c);
    assert forall|i: int| 0 <= i < q.len() - 1 implies g.depends(#[trigger] q[i], q[i + 1]) by {
        if i < p.len() - 1 {
            assert(q[i] == p[i] && q[i + 1] == p[i + 1]);
        } else {
            assert(q[i] == b);
        }
    }
    assert(g.is_path(q));
}

/// A set of nodes closed under dependency that holds `a` holds all `a` reaches.
proof fn lemma_closed_holds_reached(g: DepGraph, m: Seq<bool>, a: usize, b: usize)
    requires
        m.len() == g.ids.len(),
        (a as int) < m.len(),
        m[a as int],
        forall|u: usize, v: usize|
            #![trigger m[u as int], g.depends(u, v)]
            (u as int) < m.len() && m[u as int] && g.depends(u, v) ==> m[v as int],
        g.reaches(a, b),
    ensures
        m[b as int],
{
    let p = choose|p: Seq<usize>| #[trigger] g.is_path(p) && p[0] == a && p.last() == b;
    assert forall|i: int| 0 <= i < p.len() implies m[#[trigger] p[i] as int] by {
        lemma_path_marks(g, m, p, i);
    }
    assert(m[p[p.len() - 1] as int]);
}

proof fn lemma_path_marks(g: DepGraph, m: Seq<bool>, p: Seq<usize>, i: int)
    requires
        m.len() == g.ids.len(),
        g.is_path(p),
        m[p[0] as int],
        forall|u: usize, v: usize|
            #![trigger m[u as int], g.depends(u, v)]
            (u as int) < m.len() && m[u as int] && g.depends(u, v) ==> m[v as int],
        0 <= i < p.len(),
    ensures
        m[p[i] as int],
    decreases i,
{
    if i > 0 {
        lemma_path_marks(g, m, p, i - 1);
        assert(g.depends(p[i - 1], p[i]));
    }
}

/// The node of a registered name is in range and carries that name.
pub(crate) proof fn lemma_node(g: DepGraph, name: Seq<char>)
    requires
        g.wf(),
        g.has(name),
    ensures
        (g.node(name) as int) < g.ids.len(),
        g.ids[g.node(name) as int] == name,
{
    let i = choose|i: int| 0 <= i < g.ids.len() && g.ids[i] == name;
    let w = i as usize;
    assert((w as int) < g.ids.len() && g.ids[w as int] == name);
}


proof fn lemma_first_missing(g: DepGraph, s: Seq<Seq<char>>)
    ensures
        match g.first_missing(s) {
            None => forall|k: int| 0 <= k < s.len() ==> g.has(#[trigger] s[k]),
            Some(x) => !g.has(x) && exists|k: int| 0 <= k < s.len() && s[k] == x,
        },
    decreases s.len(),
{
    if s.len() > 0 {
        let t = s.drop_first();
        lemma_first_missing(g, t);
        if g.has(s[0]) {
            match g.first_missing(t) {
                None => {
                    assert forall|k: int| 0 <= k < s.len() implies g.has(#[trigger] s[k]) by {
                        if k > 0 {
                            assert(s[k] == t[k - 1]);
                        }
                    }
                },
                Some(x) => {
                    let k = choose|k: int| 0 <= k < t.len() && t[k] == x;
                    assert(s[k + 1] == x);
                },
            }
        } else {
            assert(s[0] == s[0]);
        }
    }
}

/// A dependency name that is registered names a node that `v` depends on.
proof fn lemma_dep_node(g: DepGraph, v: usize, k: int)
    requires
        g.wf(),
        (v as int) < g.ids.len(),
        0 <= k < g.deps[v as int].len(),
        g.has(g.deps[v as int][k]),
    ensures
        g.depends(v, g.node(g.deps[v as int][k])),
        (g.node(g.deps[v as int][k]) as int) < g.ids.len(),
        g.dep_nodes(v)[k] == g.node(g.deps[v as int][k]),
{
    let d = g.deps[v as int][k];
    lemma_node(g, d);
    assert(g.deps[v as int][k] == g.ids[g.node(d) as int]);
}

/// If `v` depends on `w`, then `w` is among the nodes named by `v`'s dependencies.
proof fn lemma_depends_in_dep_nodes(g: DepGraph, v: usize, w: usize)
    requires
        g.wf(),
        (v as int) < g.ids.len(),
        g.depends(v, w),
    ensures
        g.dep_nodes(v).contains(w),
{
    let k = choose|k: int| 0 <= k < g.deps[v as int].len() && g.deps[v as int][k] == g.ids[w as int];
    assert(g.has(g.ids[w as int]));
    lemma_node(g, g.ids[w as int]);
    let n = g.node(g.ids[w as int]);
    assert(n == w);
    assert(g.dep_nodes(v)[k] == w);
}

/// What the depth-first search keeps true while it runs from root node `r`.
pub open spec fn dfs_inv(g: DepGraph, r: usize, stack: Seq<usize>, marks: Seq<bool>) -> bool {
    &&& marks.len() == g.ids.len()
    &&& (r as int) < g.ids.len()
    &&& forall|i: int|
        0 <= i < stack.len() ==> (#[trigger] stack[i] as int) < g.ids.len() && g.reaches(
            r,
            stack[i],
        )
    &&& forall|v: usize| (v as int) < g.ids.len() && #[trigger] marks[v as int] ==> g.reaches(r, v)
    &&& forall|v: usize, k: int|
        #![trigger marks[v as int], g.deps[v as int][k]]
        (v as int) < g.ids.len() && marks[v as int] && 0 <= k < g.deps[v as int].len() ==> g.has(
            g.deps[v as int][k],
        )
    &&& forall|v: usize, w: usize|
        #![trigger marks[v as int], g.depends(v, w)]
        (v as int) < g.ids.len() && marks[v as int] && g.depends(v, w) ==> marks[w as int]
            || stack.contains(w)
    &&& marks[r as int] || stack.contains(r)
}

/// The outcome of the search: the reachable nodes, or a missing name some
/// reachable node depends on.
pub open spec fn dfs_post(g: DepGraph, r: usize, res: Result<Seq<bool>, Seq<char>>) -> bool {
    match res {
        Ok(m) => {
            &&& m.len() == g.ids.len()
            &&& forall|v: usize| (v as int) < g.ids.len() ==> (#[trigger] m[v as int] <==> g.reaches(r, v))
            &&& forall|v: usize, k: int|
                #![trigger m[v as int], g.deps[v as int][k]]
                (v as int) < g.ids.len() && m[v as int] && 0 <= k < g.deps[v as int].len()
                    ==> g.has(g.deps[v as int][k])
        },
        Err(x) => {
            &&& !g.has(x)
            &&& exists|v: usize, k: int|
                #![trigger g.deps[v as int][k]]
                (v as int) < g.ids.len() && g.reaches(r, v) && 0 <= k < g.deps[v as int].len()
                    && g.deps[v as int][k] == x
        },
    }
}

/// What the depth-first collection of the needed apps establishes.
pub(crate) proof fn lemma_dfs(g: DepGraph, r: usize, stack: Seq<usize>, marks: Seq<bool>)
    requires
        g.wf(),
        dfs_inv(g, r, stack, marks),
    ensures
        dfs_post(g, r, g.dfs(stack, marks)),
    decreases count_false(marks), stack.len(),
{
    if stack.len() == 0 {
        assert forall|v: usize| (v as int) < g.ids.len() implies (#[trigger] marks[v as int]
            <==> g.reaches(r, v)) by {
            if g.reaches(r, v) {
                lemma_closed_holds_reached(g, marks, r, v);
            }
        }
    } else {
        let v = stack.last();
        let rest = stack.drop_last();
        assert(stack[stack.len() - 1] == v);
        if marks[v as int] {
            assert forall|u: usize, w: usize|
                #![trigger marks[u as int], g.depends(u, w)]
                (u as int) < g.ids.len() && marks[u as int] && g.depends(u, w) implies marks[w as int]
                    || rest.contains(w) by {
                if !marks[w as int] {
                    let i = choose|i: int| 0 <= i < stack.len() && stack[i] == w;
                    assert(i != stack.len() - 1);
                    assert(rest[i] == w);
                }
            }
            if !marks[r as int] {
                let i = choose|i: int| 0 <= i < stack.len() && stack[i] == r;
                assert(i != stack.len() - 1);
                assert(rest[i] == r);
            }
            assert forall|i: int| 0 <= i < rest.len() implies (#[trigger] rest[i] as int)
                < g.ids.len() && g.reaches(r, rest[i]) by {
                assert(rest[i] == stack[i]);
            }
            lemma_dfs(g, r, rest, marks);
        } else {
            crate::graph::lemma_count_false_update(marks, v as int);
            lemma_first_missing(g, g.deps[v as int]);
            match g.first_missing(g.deps[v as int]) {
                Some(x) => {
                    let k = choose|k: int|
                        0 <= k < g.deps[v as int].len() && g.deps[v as int][k] == x;
                    assert(g.reaches(r, v));
                },
                None => {
                    let ds = g.dep_nodes(v);
                    let ns = rest + ds;
                    let nm = marks.update(v as int, true);
                    assert forall|k: int| 0 <= k < ds.len() implies (#[trigger] ds[k] as int)
                        < g.ids.len() && g.reaches(r, ds[k]) by {
                        assert(g.has(g.deps[v as int][k]));
                        lemma_dep_node(g, v, k);
                        lemma_reaches_step(g, r, v, ds[k]);
                    }
                    assert forall|i: int| 0 <= i < ns.len() implies (#[trigger] ns[i] as int)
                        < g.ids.len() && g.reaches(r, ns[i]) by {
                        if i < rest.len() {
                            assert(ns[i] == stack[i]);
                        } else {
                            assert(ns[i] == ds[i - rest.len()]);
                        }
                    }
                    assert forall|u: usize| (u as int) < g.ids.len() && #[trigger] nm[u as int]
                        implies g.reaches(r, u) by {
                        if u != v {
                            assert(marks[u as int]);
                        }
                    }
                    assert forall|u: usize, k: int|
                        #![trigger nm[u as int], g.deps[u as int][k]]
                        (u as int) < g.ids.len() && nm[u as int] && 0 <= k < g.deps[u as int].len()
                            implies g.has(g.deps[u as int][k]) by {
                        if u != v {
                            assert(marks[u as int]);
                        }
                    }
                    assert forall|u: usize, w: usize|
                        #![trigger nm[u as int], g.depends(u, w)]
                        (u as int) < g.ids.len() && nm[u as int] && g.depends(u, w) implies nm[w as int]
                            || ns.contains(w) by {
                        if u == v {
                            lemma_depends_in_dep_nodes(g, v, w);
                            let k = choose|k: int| 0 <= k < ds.len() && ds[k] == w;
                            assert(ns[rest.len() + k] == w);
                        } else {
                            assert(marks[u as int]);
                            if !marks[w as int] {
                                let i = choose|i: int| 0 <= i < stack.len() && stack[i] == w;
                                if i == stack.len() - 1 {
                                    assert(nm[w as int]);
                                } else {
                                    assert(ns[i] == w);
                                }
                            }
                        }
                    }
                    if !marks[r as int] && r != v {
                        let i = choose|i: int| 0 <= i < stack.len() && stack[i] == r;
                        assert(i != stack.len() - 1);
                        assert(ns[i] == r);
                    }
                    lemma_dfs(g, r, ns, nm);
                },
            }
        }
    }
}


/// Number of names in `s` whose node is not yet in `order`.
pub open spec fn count_pending(g: DepGraph, s: Seq<Seq<char>>, order: Seq<usize>) -> nat
    decreases s.len(),
{
    if s.len() == 0 {
        0
    } else {
        count_pending(g, s.drop_last(), order) + if order.contains(g.node(s.last())) {
            0nat
        } else {
            1nat
        }
    }
}

proof fn lemma_pending_empty(g: DepGraph, s: Seq<Seq<char>>)
    ensures
        count_pending(g, s, Seq::empty()) == s.len(),
    decreases s.len(),
{
    if s.len() > 0 {
        lemma_pending_empty(g, s.drop_last());
    }
}

proof fn lemma_pending_zero(g: DepGraph, s: Seq<Seq<char>>, order: Seq<usize>)
    ensures
        count_pending(g, s, order) == 0 <==> forall|k: int|
            0 <= k < s.len() ==> order.contains(g.node(#[trigger] s[k])),
    decreases s.len(),
{
    if s.len() > 0 {
        let t = s.drop_last();
        lemma_pending_zero(g, t, order);
        if count_pending(g, s, order) == 0 {
            assert forall|k: int| 0 <= k < s.len() implies order.contains(g.node(#[trigger] s[k])) by {
                if k < s.len() - 1 {
                    assert(s[k] == t[k]);
                }
            }
        }
        if forall|k: int| 0 <= k < s.len() ==> order.contains(g.node(#[trigger] s[k])) {
            assert forall|k: int| 0 <= k < t.len() implies order.contains(g.node(#[trigger] t[k])) by {
                assert(s[k] == t[k]);
            }
            assert(order.contains(g.node(s[s.len() - 1])));
        }
    }
}

proof fn lemma_pending_after_emit(g: DepGraph, s: Seq<Seq<char>>, order: Seq<usize>, n: usize)
    requires
        g.wf(),
        (n as int) < g.ids.len(),
        !order.contains(n),
        forall|k: int| 0 <= k < s.len() ==> g.has(#[trigger] s[k]),
    ensures
        count_pending(g, s, order.push(n)) + count_name(s, g.ids[n as int]) == count_pending(
            g,
            s,
            order,
        ),
    decreases s.len(),
{
    if s.len() > 0 {
        let t = s.drop_last();
        assert forall|k: int| 0 <= k < t.len() implies g.has(#[trigger] t[k]) by {
            assert(t[k] == s[k]);
        }
        lemma_pending_after_emit(g, t, order, n);
        let e = s.last();
        assert(g.has(s[s.len() - 1]));
        lemma_node(g, e);
        let c = g.node(e);
        if c == n {
            assert(e == g.ids[n as int]);
            assert(order.push(n).contains(c)) by {
                assert(order.push(n)[order.len() as int] == n);
            }
        } else {
            assert(e != g.ids[n as int]);
            assert(order.push(n).contains(c) <==> order.contains(c)) by {
                if order.push(n).contains(c) {
                    let i = choose|i: int| 0 <= i < order.push(n).len() && order.push(n)[i] == c;
                    assert(order[i] == c);
                }
                if order.contains(c) {
                    let i = choose|i: int| 0 <= i < order.len() && order[i] == c;
                    assert(order.push(n)[i] == c);
                }
            }
        }
    }
}

/// A duplicate-free sequence of marked positions has at most as many entries
/// as there are marks, and fewer when some mark is left out.
proof fn lemma_nodup_marked(s: Seq<usize>, m: Seq<bool>)
    requires
        s.no_duplicates(),
        m.len() <= usize::MAX,
        forall|i: int| 0 <= i < s.len() ==> (#[trigger] s[i] as int) < m.len() && m[s[i] as int],
    ensures
        s.len() <= count_true(m),
        (exists|c: usize| (c as int) < m.len() && m[c as int] && !s.contains(c)) ==> s.len()
            < count_true(m),
        (forall|c: usize| (c as int) < m.len() && m[c as int] ==> s.contains(c)) ==> s.len()
            == count_true(m),
    decreases m.len(),
{
    if m.len() == 0 {
        if s.len() > 0 {
            assert((s[0] as int) < m.len());
        }
    } else {
        let t = (m.len() - 1) as usize;
        let m2 = m.drop_last();
        if s.contains(t) {
            let i = choose|i: int| 0 <= i < s.len() && s[i] == t;
            let s2 = s.remove(i);
            assert forall|j: int| 0 <= j < s2.len() implies s2[j] == (if j < i {
                s[j]
            } else {
                s[j + 1]
            }) by {}
            assert forall|j: int| 0 <= j < s2.len() implies (#[trigger] s2[j] as int) < m2.len()
                && m2[s2[j] as int] by {
                if j < i {
                    assert(s[j] != s[i]);
                } else {
                    assert(s[j + 1] != s[i]);
                }
            }
            assert(s2.no_duplicates()) by {
                assert forall|a: int, b: int| 0 <= a < s2.len() && 0 <= b < s2.len() && a != b implies s2[a] != s2[b] by {
                    let a1 = if a < i { a } else { a + 1 };
                    let b1 = if b < i { b } else { b + 1 };
                    assert(s2[a] == s[a1] && s2[b] == s[b1]);
                }
            }
            lemma_nodup_marked(s2, m2);
            if exists|c: usize| (c as int) < m.len() && m[c as int] && !s.contains(c) {
                let c = choose|c: usize| (c as int) < m.len() && m[c as int] && !s.contains(c);
                assert(c != t);
                assert(!s2.contains(c)) by {
                    if s2.contains(c) {
                        let j = choose|j: int| 0 <= j < s2.len() && s2[j] == c;
                        if j < i {
                            assert(s[j] == c);
                        } else {
                            assert(s[j + 1] == c);
                        }
                    }
                }
                assert(m2[c as int]);
            }
            if forall|c: usize| (c as int) < m.len() && m[c as int] ==> s.contains(c) {
                assert forall|c: usize| (c as int) < m2.len() && m2[c as int] implies s2.contains(c) by {
                    assert(m[c as int]);
                    assert(c != t);
                    let j = choose|j: int| 0 <= j < s.len() && s[j] == c;
                    assert(j != i);
                    if j < i {
                        assert(s2[j] == c);
                    } else {
                        assert(s2[j - 1] == c);
                    }
                }
            }
        } else {
            assert forall|j: int| 0 <= j < s.len() implies (#[trigger] s[j] as int) < m2.len()
                && m2[s[j] as int] by {
                assert(s[j] != t);
            }
            lemma_nodup_marked(s, m2);
            if m[t as int] {
                assert(m.last());
            } else {
                if exists|c: usize| (c as int) < m.len() && m[c as int] && !s.contains(c) {
                    let c = choose|c: usize| (c as int) < m.len() && m[c as int] && !s.contains(c);
                    assert(c != t);
                    assert(m2[c as int]);
                }
                if forall|c: usize| (c as int) < m.len() && m[c as int] ==> s.contains(c) {
                    assert forall|c: usize| (c as int) < m2.len() && m2[c as int] implies s.contains(c) by {
                        assert(m[c as int]);
                    }
                }
            }
        }
    }
}

proof fn lemma_concat_nodup(a: Seq<usize>, b: Seq<usize>)
    requires
        a.no_duplicates(),
        b.no_duplicates(),
        forall|x: usize| a.contains(x) ==> !b.contains(x),
    ensures
        (a + b).no_duplicates(),
        forall|x: usize| #[trigger] (a + b).contains(x) <==> a.contains(x) || b.contains(x),
{
    let c = a + b;
    assert forall|i: int, j: int| 0 <= i < c.len() && 0 <= j < c.len() && i != j implies c[i] != c[j] by {
        if i < a.len() && j >= a.len() {
            assert(a.contains(c[i]));
            assert(b.contains(c[j])) by {
                assert(b[j - a.len()] == c[j]);
            }
        } else if j < a.len() && i >= a.len() {
            assert(a.contains(c[j]));
            assert(b.contains(c[i])) by {
                assert(b[i - a.len()] == c[i]);
            }
        } else if i >= a.len() && j >= a.len() {
            assert(b[i - a.len()] == c[i] && b[j - a.len()] == c[j]);
        }
    }
    assert forall|x: usize| #[trigger] c.contains(x) <==> a.contains(x) || b.contains(x) by {
        if c.contains(x) {
            let i = choose|i: int| 0 <= i < c.len() && c[i] == x;
            if i >= a.len() {
                assert(b[i - a.len()] == x);
            }
        }
        if a.contains(x) {
            let i = choose|i: int| 0 <= i < a.len() && a[i] == x;
            assert(c[i] == x);
        }
        if b.contains(x) {
            let i = choose|i: int| 0 <= i < b.len() && b[i] == x;
            assert(c[a.len() + i] == x);
        }
    }
}

proof fn lemma_freed(g: DepGraph, old_deg: Seq<usize>, new_deg: Seq<usize>, k: int)
    requires
        0 <= k <= old_deg.len(),
        old_deg.len() <= usize::MAX,
        old_deg.len() == new_deg.len(),
    ensures
        g.freed(old_deg, new_deg, k).no_duplicates(),
        forall|j: int| 0 <= j < g.freed(old_deg, new_deg, k).len() ==> (#[trigger] g.freed(old_deg, new_deg, k)[j] as int) < k,
        forall|c: usize| #[trigger] g.freed(old_deg, new_deg, k).contains(c) <==> ((c as int) < k
            && old_deg[c as int] > 0 && new_deg[c as int] == 0),
    decreases k,
{
    if k > 0 {
        lemma_freed(g, old_deg, new_deg, k - 1);
        let prev = g.freed(old_deg, new_deg, k - 1);
        let cur = g.freed(old_deg, new_deg, k);
        if old_deg[k - 1] > 0 && new_deg[k - 1] == 0 {
            assert(cur == prev.push((k - 1) as usize));
            assert forall|c: usize| #[trigger] cur.contains(c) <==> ((c as int) < k
                && old_deg[c as int] > 0 && new_deg[c as int] == 0) by {
                if cur.contains(c) {
                    let i = choose|i: int| 0 <= i < cur.len() && cur[i] == c;
                    if i < prev.len() {
                        assert(prev[i] == c);
                        assert(prev.contains(c));
                    } else {
                        assert(c == (k - 1) as usize);
                    }
                }
                if (c as int) < k && old_deg[c as int] > 0 && new_deg[c as int] == 0 {
                    if (c as int) < k - 1 {
                        assert(prev.contains(c));
                        let i = choose|i: int| 0 <= i < prev.len() && prev[i] == c;
                        assert(cur[i] == c);
                    } else {
                        assert(cur[prev.len() as int] == c);
                    }
                }
            }
            assert forall|i: int, j: int| 0 <= i < cur.len() && 0 <= j < cur.len() && i != j implies cur[i] != cur[j] by {
                if i < prev.len() && j < prev.len() {
                } else if i < prev.len() {
                    assert((prev[i] as int) < k - 1);
                } else if j < prev.len() {
                    assert((prev[j] as int) < k - 1);
                }
            }
        } else {
            assert forall|c: usize| #[trigger] cur.contains(c) <==> ((c as int) < k
                && old_deg[c as int] > 0 && new_deg[c as int] == 0) by {
                if (c as int) == k - 1 && cur.contains(c) {
                    let i = choose|i: int| 0 <= i < cur.len() && cur[i] == c;
                    assert((prev[i] as int) < k - 1);
                }
            }
        }
    }
}

proof fn lemma_sources(g: DepGraph, needed: Seq<bool>, indeg: Seq<usize>, k: int)
    requires
        0 <= k <= needed.len(),
        needed.len() <= usize::MAX,
        needed.len() == indeg.len(),
    ensures
        g.sources(needed, indeg, k).no_duplicates(),
        forall|j: int| 0 <= j < g.sources(needed, indeg, k).len() ==> (#[trigger] g.sources(needed, indeg, k)[j] as int) < k,
        forall|c: usize| #[trigger] g.sources(needed, indeg, k).contains(c) <==> ((c as int) < k
            && needed[c as int] && indeg[c as int] == 0),
    decreases k,
{
    if k > 0 {
        lemma_sources(g, needed, indeg, k - 1);
        let prev = g.sources(needed, indeg, k - 1);
        let cur = g.sources(needed, indeg, k);
        if needed[k - 1] && indeg[k - 1] == 0 {
            assert(cur == prev.push((k - 1) as usize));
            assert forall|c: usize| #[trigger] cur.contains(c) <==> ((c as int) < k
                && needed[c as int] && indeg[c as int] == 0) by {
                if cur.contains(c) {
                    let i = choose|i: int| 0 <= i < cur.len() && cur[i] == c;
                    if i < prev.len() {
                        assert(prev[i] == c);
                        assert(prev.contains(c));
                    } else {
                        assert(c == (k - 1) as usize);
                    }
                }
                if (c as int) < k && needed[c as int] && indeg[c as int] == 0 {
                    if (c as int) < k - 1 {
                        assert(prev.contains(c));
                        let i = choose|i: int| 0 <= i < prev.len() && prev[i] == c;
                        assert(cur[i] == c);
                    } else {
                        assert(cur[prev.len() as int] == c);
                    }
                }
            }
            assert forall|i: int, j: int| 0 <= i < cur.len() && 0 <= j < cur.len() && i != j implies cur[i] != cur[j] by {
                if i < prev.len() && j < prev.len() {
                } else if i < prev.len() {
                    assert((prev[i] as int) < k - 1);
                } else if j < prev.len() {
                    assert((prev[j] as int) < k - 1);
                }
            }
        } else {
            assert forall|c: usize| #[trigger] cur.contains(c) <==> ((c as int) < k
                && needed[c as int] && indeg[c as int] == 0) by {
                if (c as int) == k - 1 && cur.contains(c) {
                    let i = choose|i: int| 0 <= i < cur.len() && cur[i] == c;
                    assert((prev[i] as int) < k - 1);
                }
            }
        }
    }
}


proof fn lemma_ascending_nodup(g: DepGraph, s: Seq<usize>)
    requires
        s.no_duplicates(),
    ensures
        g.ascending(s).no_duplicates(),
    decreases s.len(),
{
    if s.len() > 0 {
        let p = g.min_pos(s);
        g.lemma_min_pos_range(s);
        let r = s.remove(p);
        assert forall|j: int| 0 <= j < r.len() implies r[j] == (if j < p {
            s[j]
        } else {
            s[j + 1]
        }) by {}
        assert(r.no_duplicates()) by {
            assert forall|a: int, b: int| 0 <= a < r.len() && 0 <= b < r.len() && a != b implies r[a] != r[b] by {
                let a1 = if a < p { a } else { a + 1 };
                let b1 = if b < p { b } else { b + 1 };
                assert(r[a] == s[a1] && r[b] == s[b1]);
            }
        }
        assert(!r.contains(s[p])) by {
            if r.contains(s[p]) {
                let j = choose|j: int| 0 <= j < r.len() && r[j] == s[p];
                let j1 = if j < p { j } else { j + 1 };
                assert(s[j1] == s[p]);
            }
        }
        lemma_ascending_nodup(g, r);
        g.lemma_ascending_members(r);
        let head = seq![s[p]];
        assert forall|x: usize| head.contains(x) implies !g.ascending(r).contains(x) by {
            assert(head[0] == x);
        }
        lemma_concat_nodup(head, g.ascending(r));
        assert(g.ascending(s) == head + g.ascending(r));
    }
}

proof fn lemma_count_true_bound(m: Seq<bool>)
    ensures
        count_true(m) <= m.len(),
    decreases m.len(),
{
    if m.len() > 0 {
        lemma_count_true_bound(m.drop_last());
    }
}

/// Every needed node names only registered apps, all of them needed too.
pub open spec fn needed_closed(g: DepGraph, needed: Seq<bool>) -> bool {
    &&& needed.len() == g.ids.len()
    &&& forall|c: usize, k: int|
        #![trigger needed[c as int], g.deps[c as int][k]]
        (c as int) < g.ids.len() && needed[c as int] && 0 <= k < g.deps[c as int].len() ==> g.has(
            g.deps[c as int][k],
        ) && needed[g.node(g.deps[c as int][k]) as int]
}

/// In `order`, the node of each dependency of an entry comes earlier.
pub open spec fn emitted_after_deps(g: DepGraph, order: Seq<usize>) -> bool {
    forall|i: int, k: int|
        #![trigger order[i], g.deps[order[i] as int][k]]
        0 <= i < order.len() && 0 <= k < g.deps[order[i] as int].len() ==> order.take(i).contains(
            g.node(g.deps[order[i] as int][k]),
        )
}

/// What Kahn's algorithm keeps true from step to step.
pub open spec fn kahn_inv(
    g: DepGraph,
    needed: Seq<bool>,
    queue: Seq<usize>,
    indeg: Seq<usize>,
    order: Seq<usize>,
    fuel: nat,
) -> bool {
    &&& indeg.len() == g.ids.len()
    &&& forall|i: int|
        0 <= i < (order + queue).len() ==> (#[trigger] (order + queue)[i] as int) < g.ids.len()
            && needed[(order + queue)[i] as int]
    &&& (order + queue).no_duplicates()
    &&& forall|c: usize|
        (c as int) < g.ids.len() && #[trigger] needed[c as int] ==> indeg[c as int] == count_pending(
            g,
            g.deps[c as int],
            order,
        )
    &&& forall|c: usize|
        (c as int) < g.ids.len() ==> (#[trigger] queue.contains(c) <==> (needed[c as int]
            && !order.contains(c) && indeg[c as int] == 0))
    &&& emitted_after_deps(g, order)
    &&& fuel + order.len() == g.ids.len()
}

/// What the finished order satisfies: needed nodes without repetition,
/// dependencies first, and every needed node left out still waits on one.
pub open spec fn kahn_post(g: DepGraph, needed: Seq<bool>, res: Seq<usize>) -> bool {
    &&& forall|i: int|
        0 <= i < res.len() ==> (#[trigger] res[i] as int) < g.ids.len() && needed[res[i] as int]
    &&& res.no_duplicates()
    &&& emitted_after_deps(g, res)
    &&& forall|c: usize|
        (c as int) < g.ids.len() && #[trigger] needed[c as int] && !res.contains(c)
            ==> count_pending(g, g.deps[c as int], res) > 0
}

/// Emitting `n` lowers each needed in-degree by the entries that name `n`.
proof fn lemma_step_degrees(
    g: DepGraph,
    needed: Seq<bool>,
    indeg: Seq<usize>,
    order: Seq<usize>,
    n: usize,
)
    requires
        g.wf(),
        needed_closed(g, needed),
        indeg.len() == g.ids.len(),
        (n as int) < g.ids.len(),
        !order.contains(n),
        forall|c: usize|
            (c as int) < g.ids.len() && #[trigger] needed[c as int] ==> indeg[c as int]
                == count_pending(g, g.deps[c as int], order),
    ensures
        forall|c: usize|
            (c as int) < g.ids.len() && #[trigger] needed[c as int] ==> g.decremented(
                needed,
                indeg,
                n,
            )[c as int] == count_pending(g, g.deps[c as int], order.push(n)) && g.decremented(
                needed,
                indeg,
                n,
            )[c as int] <= indeg[c as int],
        forall|c: usize|
            (c as int) < g.ids.len() && !needed[c as int] ==> #[trigger] g.decremented(
                needed,
                indeg,
                n,
            )[c as int] == indeg[c as int],
        g.decremented(needed, indeg, n).len() == g.ids.len(),
{
    let next = g.decremented(needed, indeg, n);
    assert forall|c: usize| (c as int) < g.ids.len() && #[trigger] needed[c as int] implies next[c
        as int] == count_pending(g, g.deps[c as int], order.push(n)) && next[c as int] <= indeg[c
        as int] by {
        assert forall|k: int| 0 <= k < g.deps[c as int].len() implies g.has(
            #[trigger] g.deps[c as int][k],
        ) by {
            assert(needed[c as int]);
        }
        lemma_pending_after_emit(g, g.deps[c as int], order, n);
    }
}

/// Nodes all of whose dependencies were emitted have no pending entries.
proof fn lemma_emitted_no_pending(g: DepGraph, order: Seq<usize>, c: usize)
    requires
        emitted_after_deps(g, order),
        order.contains(c),
    ensures
        count_pending(g, g.deps[c as int], order) == 0,
{
    let i = choose|i: int| 0 <= i < order.len() && order[i] == c;
    assert forall|k: int| 0 <= k < g.deps[c as int].len() implies order.contains(
        g.node(#[trigger] g.deps[c as int][k]),
    ) by {
        assert(order[i] == c);
        let x = g.node(g.deps[order[i] as int][k]);
        assert(order.take(i).contains(x));
        let j = choose|j: int| 0 <= j < order.take(i).len() && order.take(i)[j] == x;
        assert(order[j] == x);
    }
    lemma_pending_zero(g, g.deps[c as int], order);
}

proof fn lemma_concat_contains(a: Seq<usize>, b: Seq<usize>)
    ensures
        forall|x: usize| #[trigger] (a + b).contains(x) <==> a.contains(x) || b.contains(x),
{
    let c = a + b;
    assert forall|x: usize| #[trigger] c.contains(x) <==> a.contains(x) || b.contains(x) by {
        if c.contains(x) {
            let i = choose|i: int| 0 <= i < c.len() && c[i] == x;
            if i >= a.len() {
                assert(b[i - a.len()] == x);
            }
        }
        if a.contains(x) {
            let i = choose|i: int| 0 <= i < a.len() && a[i] == x;
            assert(c[i] == x);
        }
        if b.contains(x) {
            let i = choose|i: int| 0 <= i < b.len() && b[i] == x;
            assert(c[a.len() + i] == x);
        }
    }
}

/// Emitting a node whose dependencies were all emitted keeps them first.
proof fn lemma_emit_keeps_order(g: DepGraph, order: Seq<usize>, n: usize)
    requires
        emitted_after_deps(g, order),
        count_pending(g, g.deps[n as int], order) == 0,
    ensures
        emitted_after_deps(g, order.push(n)),
{
    let o2 = order.push(n);
    lemma_pending_zero(g, g.deps[n as int], order);
    assert forall|i: int, k: int|
        #![trigger o2[i], g.deps[o2[i] as int][k]]
        0 <= i < o2.len() && 0 <= k < g.deps[o2[i] as int].len() implies o2.take(i).contains(
            g.node(g.deps[o2[i] as int][k]),
        ) by {
        if i < order.len() {
            assert(o2[i] == order[i]);
            assert(o2.take(i) =~= order.take(i));
        } else {
            assert(o2[i] == n);
            assert(o2.take(i) =~= order);
            assert(order.contains(g.node(g.deps[n as int][k])));
        }
    }
}

/// The nodes queued by one step: needed, not yet emitted or queued, freed now.
proof fn lemma_freed_facts(
    g: DepGraph,
    needed: Seq<bool>,
    queue: Seq<usize>,
    indeg: Seq<usize>,
    order: Seq<usize>,
    fuel: nat,
)
    requires
        g.wf(),
        needed_closed(g, needed),
        kahn_inv(g, needed, queue, indeg, order, fuel),
        queue.len() > 0,
        !order.contains(queue[0]),
        indeg[queue[0] as int] == 0,
    ensures
        ({
            let n = queue[0];
            let next = g.decremented(needed, indeg, n);
            let fr = g.freed(indeg, next, indeg.len() as int);
            let af = g.ascending(fr);
            &&& af.no_duplicates()
            &&& forall|c: usize| #[trigger] af.contains(c) <==> fr.contains(c)
            &&& forall|c: usize| #[trigger] fr.contains(c) <==> ((c as int) < g.ids.len()
                && indeg[c as int] > 0 && next[c as int] == 0)
            &&& forall|c: usize| #[trigger] af.contains(c) ==> (c as int) < g.ids.len()
                && needed[c as int] && !order.contains(c) && c != n && !queue.contains(c)
        }),
{
    let n = queue[0];
    let next = g.decremented(needed, indeg, n);
    let fr = g.freed(indeg, next, indeg.len() as int);
    let af = g.ascending(fr);
    assert((order + queue)[order.len() as int] == n);
    lemma_step_degrees(g, needed, indeg, order, n);
    lemma_freed(g, indeg, next, indeg.len() as int);
    g.lemma_ascending_members(fr);
    lemma_ascending_nodup(g, fr);
    assert forall|c: usize| #[trigger] af.contains(c) implies (c as int) < g.ids.len()
        && needed[c as int] && !order.contains(c) && c != n && !queue.contains(c) by {
        assert(fr.contains(c));
        if !needed[c as int] {
            assert(next[c as int] == indeg[c as int]);
        }
        if order.contains(c) {
            lemma_emitted_no_pending(g, order, c);
        }
    }
}

/// Membership after removing the head of a duplicate-free sequence.
proof fn lemma_drop_head(q: Seq<usize>)
    requires
        q.len() > 0,
        q.no_duplicates(),
    ensures
        forall|c: usize| #[trigger] q.drop_first().contains(c) <==> (q.contains(c) && c != q[0]),
{
    let qd = q.drop_first();
    assert forall|c: usize| #[trigger] qd.contains(c) <==> (q.contains(c) && c != q[0]) by {
        if qd.contains(c) {
            let i = choose|i: int| 0 <= i < qd.len() && qd[i] == c;
            assert(q[i + 1] == c);
        }
        if q.contains(c) && c != q[0] {
            let i = choose|i: int| 0 <= i < q.len() && q[i] == c;
            assert(qd[i - 1] == c);
        }
    }
}

proof fn lemma_push_contains(o: Seq<usize>, n: usize)
    ensures
        forall|c: usize| #[trigger] o.push(n).contains(c) <==> (o.contains(c) || c == n),
{
    let o2 = o.push(n);
    assert forall|c: usize| #[trigger] o2.contains(c) <==> (o.contains(c) || c == n) by {
        if o2.contains(c) {
            let i = choose|i: int| 0 <= i < o2.len() && o2[i] == c;
            if i < o.len() {
                assert(o[i] == c);
            }
        }
        if o.contains(c) {
            let i = choose|i: int| 0 <= i < o.len() && o[i] == c;
            assert(o2[i] == c);
        }
        if c == n {
            assert(o2[o.len() as int] == c);
        }
    }
}

/// Queue and emitted nodes after one step: no repetition, needed, and the
/// queue holds exactly the ready nodes.
#[verifier::spinoff_prover]
proof fn lemma_step_membership(
    g: DepGraph,
    needed: Seq<bool>,
    queue: Seq<usize>,
    indeg: Seq<usize>,
    next: Seq<usize>,
    order: Seq<usize>,
    fr: Seq<usize>,
    af: Seq<usize>,
)
    requires
        queue.len() > 0,
        (order + queue).no_duplicates(),
        forall|i: int|
            0 <= i < (order + queue).len() ==> (#[trigger] (order + queue)[i] as int)
                < g.ids.len() && needed[(order + queue)[i] as int],
        forall|c: usize|
            (c as int) < g.ids.len() ==> (#[trigger] queue.contains(c) <==> (needed[c as int]
                && !order.contains(c) && indeg[c as int] == 0)),
        !order.contains(queue[0]),
        indeg[queue[0] as int] == 0,
        forall|c: usize|
            (c as int) < g.ids.len() && #[trigger] needed[c as int] ==> next[c as int] <= indeg[c
                as int],
        af.no_duplicates(),
        forall|c: usize| #[trigger] af.contains(c) <==> fr.contains(c),
        forall|c: usize| #[trigger] fr.contains(c) <==> ((c as int) < g.ids.len() && indeg[c as int]
            > 0 && next[c as int] == 0),
        forall|c: usize| #[trigger] af.contains(c) ==> (c as int) < g.ids.len() && needed[c as int]
            && !order.contains(c) && c != queue[0] && !queue.contains(c),
    ensures
        ({
            let o2 = order.push(queue[0]);
            let q2 = queue.drop_first() + af;
            &&& (o2 + q2).no_duplicates()
            &&& forall|i: int|
                0 <= i < (o2 + q2).len() ==> (#[trigger] (o2 + q2)[i] as int) < g.ids.len()
                    && needed[(o2 + q2)[i] as int]
            &&& forall|c: usize|
                (c as int) < g.ids.len() ==> (#[trigger] q2.contains(c) <==> (needed[c as int]
                    && !o2.contains(c) && next[c as int] == 0))
        }),
{
    let oq = order + queue;
    let n = queue[0];
    let qd = queue.drop_first();
    let q2 = qd + af;
    let o2 = order.push(n);
    lemma_concat_contains(order, queue);
    assert(queue.no_duplicates()) by {
        assert forall|a: int, b: int| 0 <= a < queue.len() && 0 <= b < queue.len() && a != b implies queue[a] != queue[b] by {
            assert(queue[a] == oq[order.len() + a] && queue[b] == oq[order.len() + b]);
        }
    }
    lemma_drop_head(queue);
    lemma_push_contains(order, n);
    assert(o2 + qd =~= oq);
    assert forall|x: usize| oq.contains(x) implies !af.contains(x) by {}
    lemma_concat_nodup(oq, af);
    assert(o2 + q2 =~= oq + af);
    lemma_concat_contains(qd, af);
    let oq2 = o2 + q2;
    assert forall|i: int| 0 <= i < oq2.len() implies (#[trigger] oq2[i] as int) < g.ids.len()
        && needed[oq2[i] as int] by {
        if i < oq.len() {
            assert(oq[i] == oq2[i]);
        } else {
            assert(af[i - oq.len()] == oq2[i]);
            assert(af.contains(oq2[i]));
        }
    }
    assert forall|c: usize| (c as int) < g.ids.len() implies (#[trigger] q2.contains(c) <==> (
    needed[c as int] && !o2.contains(c) && next[c as int] == 0)) by {
        if q2.contains(c) {
            if qd.contains(c) {
                assert(queue.contains(c));
                assert(next[c as int] <= indeg[c as int]);
            } else {
                assert(af.contains(c));
            }
        }
        if needed[c as int] && !o2.contains(c) && next[c as int] == 0 {
            if indeg[c as int] == 0 {
                assert(queue.contains(c));
                assert(qd.contains(c));
            } else {
                assert(fr.contains(c));
            }
        }
    }
}

/// One step of Kahn's algorithm keeps its invariant.
#[verifier::spinoff_prover]
proof fn lemma_kahn_step(
    g: DepGraph,
    needed: Seq<bool>,
    queue: Seq<usize>,
    indeg: Seq<usize>,
    order: Seq<usize>,
    fuel: nat,
)
    requires
        g.wf(),
        needed_closed(g, needed),
        kahn_inv(g, needed, queue, indeg, order, fuel),
        queue.len() > 0,
        fuel > 0,
    ensures
        kahn_inv(
            g,
            needed,
            queue.drop_first() + g.ascending(
                g.freed(indeg, g.decremented(needed, indeg, queue[0]), indeg.len() as int),
            ),
            g.decremented(needed, indeg, queue[0]),
            order.push(queue[0]),
            (fuel - 1) as nat,
        ),
{
    let oq = order + queue;
    lemma_concat_contains(order, queue);
    let n = queue[0];
    assert(oq[order.len() as int] == n);
    assert(queue.contains(n));
    assert(!order.contains(n)) by {
        if order.contains(n) {
            let i = choose|i: int| 0 <= i < order.len() && order[i] == n;
            assert(oq[i] == n);
        }
    }
    let next = g.decremented(needed, indeg, n);
    let fr = g.freed(indeg, next, indeg.len() as int);
    let af = g.ascending(fr);
    lemma_step_degrees(g, needed, indeg, order, n);
    lemma_freed_facts(g, needed, queue, indeg, order, fuel);
    lemma_step_membership(g, needed, queue, indeg, next, order, fr, af);
    assert(count_pending(g, g.deps[n as int], order) == 0);
    lemma_emit_keeps_order(g, order, n);
}

/// What the ready-queue ordering establishes.
pub(crate) proof fn lemma_kahn(
    g: DepGraph,
    needed: Seq<bool>,
    queue: Seq<usize>,
    indeg: Seq<usize>,
    order: Seq<usize>,
    fuel: nat,
)
    requires
        g.wf(),
        needed_closed(g, needed),
        kahn_inv(g, needed, queue, indeg, order, fuel),
    ensures
        kahn_post(g, needed, g.kahn(needed, queue, indeg, order, fuel)),
    decreases fuel,
{
    let oq = order + queue;
    lemma_concat_contains(order, queue);
    if queue.len() == 0 {
        assert(oq =~= order);
        assert forall|c: usize|
            (c as int) < g.ids.len() && #[trigger] needed[c as int] && !order.contains(c) implies
            count_pending(g, g.deps[c as int], order) > 0 by {
            assert(!queue.contains(c));
        }
    } else if fuel == 0 {
        lemma_nodup_marked(oq, needed);
        lemma_count_true_bound(needed);
    } else {
        lemma_kahn_step(g, needed, queue, indeg, order, fuel);
        let n = queue[0];
        let next = g.decremented(needed, indeg, n);
        lemma_kahn(
            g,
            needed,
            queue.drop_first() + g.ascending(g.freed(indeg, next, indeg.len() as int)),
            next,
            order.push(n),
            (fuel - 1) as nat,
        );
    }
}


proof fn lemma_node_of_id(g: DepGraph, c: usize)
    requires
        g.wf(),
        (c as int) < g.ids.len(),
    ensures
        g.has(g.ids[c as int]),
        g.node(g.ids[c as int]) == c,
{
    assert(g.ids[c as int] == g.ids[c as int]);
    lemma_node(g, g.ids[c as int]);
}

/// The state Kahn's algorithm starts from satisfies its invariant.
proof fn lemma_kahn_start(g: DepGraph, needed: Seq<bool>)
    requires
        g.wf(),
        needed_closed(g, needed),
    ensures
        kahn_inv(
            g,
            needed,
            g.ascending(g.sources(needed, g.initial_indeg(needed), g.ids.len() as int)),
            g.initial_indeg(needed),
            Seq::empty(),
            g.ids.len() as nat,
        ),
{
    let indeg = g.initial_indeg(needed);
    let src = g.sources(needed, indeg, g.ids.len() as int);
    let q = g.ascending(src);
    let e = Seq::<usize>::empty();
    lemma_sources(g, needed, indeg, g.ids.len() as int);
    g.lemma_ascending_members(src);
    lemma_ascending_nodup(g, src);
    assert(e + q =~= q);
    assert forall|c: usize| (c as int) < g.ids.len() && #[trigger] needed[c as int] implies indeg[c
        as int] == count_pending(g, g.deps[c as int], e) by {
        lemma_pending_empty(g, g.deps[c as int]);
        assert(g.deps[c as int].len() <= usize::MAX);
    }
    assert forall|c: usize| (c as int) < g.ids.len() implies (#[trigger] q.contains(c) <==> (
    needed[c as int] && !e.contains(c) && indeg[c as int] == 0)) by {
        assert(q.contains(c) <==> src.contains(c));
    }
    assert forall|i: int| 0 <= i < (e + q).len() implies (#[trigger] (e + q)[i] as int)
        < g.ids.len() && needed[(e + q)[i] as int] by {
        assert(q.contains(q[i]));
        assert(src.contains(q[i]));
    }
}

/// Every app of a valid start order was emitted, when Kahn's algorithm ran
/// on the needed nodes.
proof fn lemma_name_emitted(
    g: DepGraph,
    root: Seq<char>,
    names: Seq<Seq<char>>,
    m: Seq<bool>,
    order: Seq<usize>,
    i: int,
)
    requires
        g.wf(),
        g.has(root),
        m.len() == g.ids.len(),
        forall|v: usize| (v as int) < g.ids.len() ==> (#[trigger] m[v as int] <==> g.reaches(
            g.node(root),
            v,
        )),
        g.valid_start_order(root, names),
        kahn_post(g, m, order),
        0 <= i < names.len(),
    ensures
        order.contains(g.node(names[i])),
    decreases i,
{
    let x = names[i];
    assert(names.contains(x));
    assert(g.needed_by(root, x));
    lemma_node(g, x);
    let c = g.node(x);
    assert(m[c as int]);
    if !order.contains(c) {
        assert(count_pending(g, g.deps[c as int], order) > 0);
        lemma_pending_zero(g, g.deps[c as int], order);
        let k = choose|k: int|
            0 <= k < g.deps[c as int].len() && !order.contains(g.node(#[trigger] g.deps[c as int][k]));
        assert(names.take(i).contains(g.deps[g.node(names[i]) as int][k]));
        let d = g.deps[c as int][k];
        let j = choose|j: int| 0 <= j < names.take(i).len() && names.take(i)[j] == d;
        assert(names[j] == d);
        lemma_name_emitted(g, root, names, m, order, j);
    }
}

/// What resolving the start order gives, in full.
proof fn lemma_outcome(g: DepGraph, root: Seq<char>)
    requires
        g.wf(),
    ensures
        g.start_order(root) is Order ==> g.valid_start_order(root, g.start_order(root)->Order_0)
            && g.closure_complete(root),
        g.start_order(root) is Cycle <==> (g.closure_complete(root) && !exists|names: Seq<Seq<char>>|
            g.valid_start_order(root, names)),
        g.start_order(root) is Missing <==> !g.closure_complete(root),
        g.start_order(root) matches StartOrder::Missing(x) ==> !g.has(x) && (x == root
            || exists|v: usize, k: int|
            #![trigger g.deps[v as int][k]]
            (v as int) < g.ids.len() && g.reaches(g.node(root), v) && 0 <= k < g.deps[v as int].len()
                && g.deps[v as int][k] == x),
{
    if g.has(root) {
        lemma_node(g, root);
        let r = g.node(root);
        let n = g.ids.len();
        let st = seq![r];
        let m0 = unmarked(n);
        lemma_reaches_self(g, r);
        assert(st[0] == r);
        assert(st.contains(r));
        assert(dfs_inv(g, r, st, m0));
        lemma_dfs(g, r, st, m0);
        match g.dfs(st, m0) {
            Err(x) => {
                let (v, k) = choose|v: usize, k: int|
                    #![trigger g.deps[v as int][k]]
                    (v as int) < g.ids.len() && g.reaches(r, v) && 0 <= k < g.deps[v as int].len()
                        && g.deps[v as int][k] == x;
                assert(!g.closure_complete(root));
            },
            Ok(m) => {
                assert(g.closure_complete(root)) by {
                    assert forall|v: usize, k: int|
                        #![trigger g.reaches(g.node(root), v), g.deps[v as int][k]]
                        (v as int) < g.ids.len() && g.reaches(g.node(root), v) && 0 <= k
                            < g.deps[v as int].len() implies g.has(g.deps[v as int][k]) by {
                        assert(m[v as int]);
                    }
                }
                assert(needed_closed(g, m)) by {
                    assert forall|c: usize, k: int|
                        #![trigger m[c as int], g.deps[c as int][k]]
                        (c as int) < g.ids.len() && m[c as int] && 0 <= k < g.deps[c as int].len()
                            implies g.has(g.deps[c as int][k]) && m[g.node(
                            g.deps[c as int][k],
                        ) as int] by {
                        lemma_dep_node(g, c, k);
                        lemma_reaches_step(g, r, c, g.node(g.deps[c as int][k]));
                    }
                }
                lemma_kahn_start(g, m);
                let indeg = g.initial_indeg(m);
                lemma_kahn(
                    g,
                    m,
                    g.ascending(g.sources(m, indeg, n as int)),
                    indeg,
                    Seq::empty(),
                    n as nat,
                );
                let order = g.kahn_order(m);
                assert(kahn_post(g, m, order));
                lemma_nodup_marked(order, m);
                if order.len() == count_true(m) {
                    let names = order.map_values(|i: usize| g.ids[i as int]);
                    assert(g.start_order(root) == StartOrder::Order(names));
                    assert forall|c: usize| (c as int) < m.len() && m[c as int] implies order.contains(c) by {}
                    assert forall|i: int| 0 <= i < order.len() implies #[trigger] g.node(names[i]) == order[i] by {
                        lemma_node_of_id(g, order[i]);
                    }
                    assert(names.no_duplicates()) by {
                        assert forall|a: int, b: int| 0 <= a < names.len() && 0 <= b < names.len() && a != b implies names[a] != names[b] by {
                            assert(g.node(names[a]) == order[a]);
                            assert(g.node(names[b]) == order[b]);
                        }
                    }
                    assert forall|x: Seq<char>| #[trigger] names.contains(x) <==> g.needed_by(root, x) by {
                        if names.contains(x) {
                            let i = choose|i: int| 0 <= i < names.len() && names[i] == x;
                            assert(g.node(names[i]) == order[i]);
                            lemma_node_of_id(g, order[i]);
                            assert(m[order[i] as int]);
                        }
                        if g.needed_by(root, x) {
                            lemma_node(g, x);
                            let c = g.node(x);
                            assert(m[c as int]);
                            assert(order.contains(c));
                            let i = choose|i: int| 0 <= i < order.len() && order[i] == c;
                            assert(names[i] == x);
                        }
                    }
                    assert forall|i: int, k: int|
                        #![trigger names[i], g.deps[g.node(names[i]) as int][k]]
                        0 <= i < names.len() && 0 <= k < g.deps[g.node(names[i]) as int].len()
                            implies names.take(i).contains(g.deps[g.node(names[i]) as int][k]) by {
                        assert(g.node(names[i]) == order[i]);
                        let c = order[i];
                        let d = g.deps[c as int][k];
                        assert(m[c as int]);
                        assert(g.has(d));
                        lemma_node(g, d);
                        assert(order.take(i).contains(g.node(g.deps[order[i] as int][k])));
                        let j = choose|j: int| 0 <= j < order.take(i).len() && order.take(i)[j] == g.node(d);
                        assert(order[j] == g.node(d));
                        assert(names[j] == d);
                        assert(names.take(i)[j] == d);
                    }
                    assert(g.valid_start_order(root, names));
                } else {
                    assert(g.start_order(root) == StartOrder::Cycle);
                    if exists|names: Seq<Seq<char>>| g.valid_start_order(root, names) {
                        let names = choose|names: Seq<Seq<char>>| g.valid_start_order(root, names);
                        assert forall|c: usize| (c as int) < m.len() && m[c as int] implies order.contains(c) by {
                            lemma_node_of_id(g, c);
                            assert(g.needed_by(root, g.ids[c as int]));
                            assert(names.contains(g.ids[c as int]));
                            let i = choose|i: int| 0 <= i < names.len() && names[i] == g.ids[c as int];
                            lemma_name_emitted(g, root, names, m, order, i);
                        }
                    }
                }
            },
        }
    }
}

/// Law (dependencies come first): when a start order is produced, it lists
/// every app the root needs (the root and its transitive dependencies)
/// exactly once, each after all the apps it depends on.
pub proof fn lemma_start_order_valid(g: DepGraph, root: Seq<char>)
    requires
        g.wf(),
        g.start_order(root) is Order,
    ensures
        g.valid_start_order(root, g.start_order(root)->Order_0),
{
    lemma_outcome(g, root);
}

/// Law (cycles are refused): the computation reports a dependency cycle
/// exactly when every needed app is registered but no order puts each app
/// after its dependencies.
pub proof fn lemma_cycle_reported_iff_no_order(g: DepGraph, root: Seq<char>)
    requires
        g.wf(),
    ensures
        g.start_order(root) is Cycle <==> (g.closure_complete(root) && !exists|
            names: Seq<Seq<char>>,
        | g.valid_start_order(root, names)),
{
    lemma_outcome(g, root);
}

/// Law (missing dependencies are refused): the computation reports a missing
/// app exactly when the root, or a dependency of an app it needs, is not
/// registered; the name reported is such an unregistered name.
pub proof fn lemma_missing_reported_iff_unregistered(g: DepGraph, root: Seq<char>)
    requires
        g.wf(),
    ensures
        g.start_order(root) is Missing <==> !g.closure_complete(root),
        g.start_order(root) matches StartOrder::Missing(x) ==> !g.has(x) && (x == root
            || exists|v: usize, k: int|
            #![trigger g.deps[v as int][k]]
            (v as int) < g.ids.len() && g.reaches(g.node(root), v) && 0 <= k < g.deps[v as int].len()
                && g.deps[v as int][k] == x),
{
    lemma_outcome(g, root);
}

/// Law (a start order exists exactly when one is produced): when every
/// needed app is registered and some valid order exists, the computation
/// produces one.
pub proof fn lemma_order_produced_when_possible(g: DepGraph, root: Seq<char>, names: Seq<Seq<char>>)
    requires
        g.wf(),
        g.closure_complete(root),
        g.valid_start_order(root, names),
    ensures
        g.start_order(root) is Order,
{
    lemma_outcome(g, root);
}

} // verus!
