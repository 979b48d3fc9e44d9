use vstd::prelude::*;
use crate::package::Package;

verus! {

/// Why the dependency graph of a root package could not be built.
pub enum ResolveError {
    /// `name` has no manifest; `requested_by` is the package that depends on it
    /// (none for the root itself).
    UnresolvedDependency { name: String, requested_by: Option<String> },
    /// The manifest of `name` could not be decoded.
    MalformedManifest { name: String, detail: String },
    /// A chain of dependencies that leads from a package back to itself; the
    /// first and last names are equal.
    CyclicDependency { path: Vec<String> },
}

/// Entry `t` is the first manifest of the table that carries its name; later
/// entries with the same name are never consulted.
pub open spec fn canonical(table: Seq<Package>, t: int) -> bool {
    &&& 0 <= t < table.len()
    &&& forall|v: int| 0 <= v < t ==> table[v].name@ != table[t].name@
}

/// Package `a` (through its manifest) lists `b` among its dependencies.
pub open spec fn has_edge(table: Seq<Package>, a: Seq<char>, b: Seq<char>) -> bool {
    exists|t: int, k: int|
        canonical(table, t) && table[t].name@ == a && 0 <= k < table[t].dependencies@.len()
            && #[trigger] table[t].dependencies@[k]@ == b
}

/// No manifest of the table carries `name`.
pub open spec fn absent(table: Seq<Package>, name: Seq<char>) -> bool {
    forall|v: int| 0 <= v < table.len() ==> table[v].name@ != name
}

pub open spec fn name_views(v: Seq<String>) -> Seq<Seq<char>> {
    v.map_values(|s: String| s@)
}

/// `path` is a closed chain of dependency edges of length one or more.
pub open spec fn is_cycle(table: Seq<Package>, path: Seq<Seq<char>>) -> bool {
    &&& path.len() >= 2
    &&& path[0] == path[path.len() - 1]
    &&& forall|i: int| 0 <= i < path.len() - 1 ==> has_edge(table, path[i], #[trigger] path[i + 1])
}

/// `c` is a chain of one or more names, each listing the next as a dependency.
pub open spec fn is_chain(table: Seq<Package>, c: Seq<Seq<char>>) -> bool {
    &&& c.len() >= 1
    &&& forall|i: int| 0 <= i < c.len() - 1 ==> has_edge(table, c[i], #[trigger] c[i + 1])
}

/// `x` is `root` or one of its dependencies, direct or transitive.
pub open spec fn reachable(table: Seq<Package>, root: Seq<char>, x: Seq<char>) -> bool {
    exists|c: Seq<Seq<char>>| is_chain(table, c) && c[0] == root && c[c.len() - 1] == x
}

/// What a resolution error claims about the manifest table, for root `root`.
pub open spec fn error_holds(table: Seq<Package>, root: Seq<char>, e: ResolveError) -> bool {
    match e {
        ResolveError::UnresolvedDependency { name, requested_by } => {
            &&& absent(table, name@)
            &&& match requested_by {
                Some(b) => has_edge(table, b@, name@),
                None => name@ == root,
            }
        },
        ResolveError::MalformedManifest { .. } => false,
        ResolveError::CyclicDependency { path } => is_cycle(table, name_views(path@)),
    }
}

/// The resolved dependency graph. Node `i` is the manifest `packages[order[i]]`;
/// `deps[i]` lists, position for position, the nodes its dependencies resolved
/// to, and `dependents[i]` the nodes that depend on node `i`.
pub struct DependencyGraph {
    pub packages: Vec<Package>,
    pub order: Vec<usize>,
    pub deps: Vec<Vec<usize>>,
    pub dependents: Vec<Vec<usize>>,
}

impl DependencyGraph {
    pub open spec fn node_count(&self) -> int {
        self.order@.len() as int
    }

    pub open spec fn node_package(&self, i: int) -> Package {
        self.packages@[self.order@[i] as int]
    }

    pub open spec fn node_name(&self, i: int) -> Seq<char> {
        self.node_package(i).name@
    }

    pub open spec fn dep(&self, i: int, k: int) -> int {
        self.deps@[i]@[k] as int
    }

    /// Every node is a distinct first manifest of its name, every dependency of
    /// a node is an earlier node of the right name (so the node order is a
    /// topological order), and `dependents` holds exactly the reverse edges.
    pub open spec fn wf(&self) -> bool {
        &&& self.deps@.len() == self.order@.len()
        &&& self.dependents@.len() == self.order@.len()
        &&& forall|i: int|
            0 <= i < self.node_count() ==> canonical(self.packages@, #[trigger] self.order@[i] as int)
        &&& forall|i: int, j: int|
            0 <= i < self.node_count() && 0 <= j < self.node_count() && i != j
                ==> #[trigger] self.order@[i] != #[trigger] self.order@[j]
        &&& forall|i: int|
            0 <= i < self.node_count() ==> (#[trigger] self.deps@[i])@.len()
                == self.node_package(i).dependencies@.len()
        &&& forall|i: int, k: int|
            0 <= i < self.node_count() && 0 <= k < self.deps@[i]@.len() ==> {
                &&& 0 <= #[trigger] self.dep(i, k) < i
                &&& self.node_name(self.dep(i, k)) == self.node_package(i).dependencies@[k]@
            }
        &&& forall|i: int, j: int|
            0 <= i < self.node_count() && 0 <= j < self.node_count() ==> ((
            #[trigger] self.dependents@[i])@.contains(j as usize) <==> (
            #[trigger] self.deps@[j])@.contains(i as usize))
        &&& forall|i: int, k: int|
            0 <= i < self.node_count() && 0 <= k < self.dependents@[i]@.len()
                ==> #[trigger] self.dependents@[i]@[k] < self.node_count()
    }

    /// Number of nodes.
    pub fn len(&self) -> (r: usize)
        ensures
            r == self.node_count(),
    {
        self.order.len()
    }

    /// The manifest of node `i`.
    pub fn package(&self, i: usize) -> (r: &Package)
        requires
            self.wf(),
            i < self.node_count(),
        ensures
            *r == self.node_package(i as int),
    {
        &self.packages[self.order[i]]
    }

    /// The name of node `i`.
    pub fn name(&self, i: usize) -> (r: &String)
        requires
            self.wf(),
            i < self.node_count(),
        ensures
            r@ == self.node_name(i as int),
    {
        &self.packages[self.order[i]].name
    }

    /// The node that carries `name`, if any.
    pub fn node_named(&self, name: &String) -> (r: Option<usize>)
        requires
            self.wf(),
        ensures
            match r {
                Some(i) => i < self.node_count() && self.node_name(i as int) == name@,
                None => forall|i: int| 0 <= i < self.node_count() ==> self.node_name(i) != name@,
            },
    {
        let mut i: usize = 0;
        while i < self.order.len()
            invariant
                self.wf(),
                i <= self.node_count(),
                forall|j: int| 0 <= j < i ==> self.node_name(j) != name@,
            decreases self.order.len() - i,
        {
            if self.packages[self.order[i]].name == *name {
                return Some(i);
            }
            i = i + 1;
        }
        None
    }
}

/// Two nodes of a well-formed graph never carry the same name.
pub proof fn lemma_names_distinct(g: DependencyGraph, i: int, j: int)
    requires
        g.wf(),
        0 <= i < g.node_count(),
        0 <= j < g.node_count(),
        i != j,
    ensures
        g.node_name(i) != g.node_name(j),
{
    let a = g.order@[i] as int;
    let b = g.order@[j] as int;
    assert(canonical(g.packages@, a));
    assert(canonical(g.packages@, b));
    assert(a != b);
}

/// The first manifest in `table` named `name`.
fn lookup(table: &Vec<Package>, name: &String) -> (r: Option<usize>)
    ensures
        match r {
            Some(t) => canonical(table@, t as int) && table@[t as int].name@ == name@,
            None => absent(table@, name@),
        },
{
    let mut i: usize = 0;
    while i < table.len()
        invariant
            i <= table@.len(),
            forall|v: int| 0 <= v < i ==> table@[v].name@ != name@,
        decreases table.len() - i,
    {
        if table[i].name == *name {
            return Some(i);
        }
        i = i + 1;
    }
    None
}


#[derive(PartialEq, Eq, Structural, Clone, Copy)]
enum Mark {
    Fresh,
    Active,
    Done,
}

spec fn fresh_count(m: Seq<Mark>) -> nat
    decreases m.len(),
{
    if m.len() == 0 {
        0
    } else {
        fresh_count(m.drop_last()) + if m.last() == Mark::Fresh {
            1nat
        } else {
            0nat
        }
    }
}

proof fn lemma_fresh_mono(a: Seq<Mark>, b: Seq<Mark>)
    requires
        a.len() == b.len(),
        forall|x: int| 0 <= x < b.len() && b[x] == Mark::Fresh ==> a[x] == Mark::Fresh,
    ensures
        fresh_count(b) <= fresh_count(a),
    decreases a.len(),
{
    if a.len() > 0 {
        lemma_fresh_mono(a.drop_last(), b.drop_last());
    }
}

proof fn lemma_fresh_take(m: Seq<Mark>, i: int)
    requires
        0 <= i < m.len(),
        m[i] == Mark::Fresh,
    ensures
        fresh_count(m.update(i, Mark::Active)) < fresh_count(m),
    decreases m.len(),
{
    let n = m.update(i, Mark::Active);
    if i < m.len() - 1 {
        assert(n.drop_last() =~= m.drop_last().update(i, Mark::Active));
        lemma_fresh_take(m.drop_last(), i);
    } else {
        assert(n.drop_last() =~= m.drop_last());
    }
}

/// State of the depth-first walk over the manifest table.
struct Walk {
    marks: Vec<Mark>,
    node_of: Vec<usize>,
    order: Vec<usize>,
    deps: Vec<Vec<usize>>,
    path: Vec<usize>,
}

impl Walk {
    spec fn inv(&self, table: Seq<Package>) -> bool {
        &&& self.marks@.len() == table.len()
        &&& self.node_of@.len() == table.len()
        &&& self.deps@.len() == self.order@.len()
        &&& forall|i: int|
            0 <= i < self.order@.len() ==> {
                &&& (#[trigger] self.order@[i]) < table.len()
                &&& self.marks@[self.order@[i] as int] == Mark::Done
                &&& self.node_of@[self.order@[i] as int] == i
                &&& canonical(table, self.order@[i] as int)
                &&& self.deps@[i]@.len() == table[self.order@[i] as int].dependencies@.len()
            }
        &&& forall|t: int|
            0 <= t < table.len() && #[trigger] self.marks@[t] == Mark::Done ==> {
                &&& self.node_of@[t] < self.order@.len()
                &&& self.order@[self.node_of@[t] as int] == t
            }
        &&& forall|i: int, k: int|
            0 <= i < self.order@.len() && 0 <= k < self.deps@[i]@.len() ==> {
                &&& #[trigger] self.deps@[i]@[k] < i
                &&& table[self.order@[self.deps@[i]@[k] as int] as int].name@
                    == table[self.order@[i] as int].dependencies@[k]@
            }
        &&& forall|p: int|
            0 <= p < self.path@.len() ==> {
                &&& (#[trigger] self.path@[p]) < table.len()
                &&& self.marks@[self.path@[p] as int] == Mark::Active
                &&& canonical(table, self.path@[p] as int)
            }
        &&& forall|t: int|
            0 <= t < table.len() && #[trigger] self.marks@[t] == Mark::Active ==> exists|p: int|
                0 <= p < self.path@.len() && self.path@[p] == t
        &&& forall|p: int|
            0 <= p < self.path@.len() - 1 ==> has_edge(
                table,
                table[self.path@[p] as int].name@,
                table[#[trigger] self.path@[p + 1] as int].name@,
            )
    }

    spec fn reach_ok(&self, table: Seq<Package>, root: Seq<char>) -> bool {
        &&& self.path@.len() > 0 ==> table[self.path@[0] as int].name@ == root
        &&& forall|i: int|
            0 <= i < self.order@.len() ==> reachable(
                table,
                root,
                table[#[trigger] self.order@[i] as int].name@,
            )
    }

    /// The dependency chain from position `p` of the path to its end, closed by
    /// the edge back to `path[p]`.
    fn cycle_names(&self, table: &Vec<Package>, p: usize, k: Ghost<int>) -> (r: Vec<String>)
        requires
            self.inv(table@),
            p < self.path@.len(),
            0 <= k@ < table@[self.path@.last() as int].dependencies@.len(),
            table@[self.path@.last() as int].dependencies@[k@]@ == table@[self.path@[p as int] as int].name@,
        ensures
            is_cycle(table@, name_views(r@)),
    {
        let mut out: Vec<String> = Vec::new();
        let mut q: usize = p;
        while q < self.path.len()
            invariant
                self.inv(table@),
                p <= q <= self.path@.len(),
                out@.len() == q - p,
                forall|j: int| 0 <= j < out@.len() ==> #[trigger] out@[j]@ == table@[self.path@[p + j] as int].name@,
            decreases self.path.len() - q,
        {
            out.push(table[self.path[q]].name.clone());
            q = q + 1;
        }
        out.push(table[self.path[p]].name.clone());
        let ghost v = name_views(out@);
        proof {
            let last = self.path@.last() as int;
            assert(canonical(table@, last));
            assert(has_edge(table@, table@[last].name@, table@[self.path@[p as int] as int].name@));
            assert forall|i: int| 0 <= i < v.len() - 1 implies has_edge(table@, v[i], #[trigger] v[i + 1]) by {
                if i < v.len() - 2 {
                    assert(v[i] == table@[self.path@[p + i] as int].name@);
                    assert(v[i + 1] == table@[self.path@[p + i + 1] as int].name@);
                } else {
                    assert(v[i] == table@[last].name@);
                }
            }
        }
        out
    }

    fn visit(&mut self, table: &Vec<Package>, t: usize, root: Ghost<Seq<char>>) -> (r: Result<(), ResolveError>)
        requires
            old(self).inv(table@),
            old(self).reach_ok(table@, root@),
            old(self).path@.len() == 0 ==> table@[t as int].name@ == root@,
            t < table@.len(),
            old(self).marks@[t as int] == Mark::Fresh,
            canonical(table@, t as int),
            old(self).path@.len() > 0 ==> has_edge(
                table@,
                table@[old(self).path@.last() as int].name@,
                table@[t as int].name@,
            ),
        ensures
            match r {
                Ok(_) => {
                    &&& final(self).inv(table@)
                    &&& final(self).reach_ok(table@, root@)
                    &&& final(self).marks@[t as int] == Mark::Done
                    &&& final(self).path@ == old(self).path@
                    &&& forall|x: int| 0 <= x < table@.len() && old(self).marks@[x] != Mark::Fresh
                        ==> #[trigger] final(self).marks@[x] == old(self).marks@[x]
                    &&& old(self).order@.len() < final(self).order@.len()
                    &&& final(self).order@.last() == t
                    &&& forall|i: int| 0 <= i < old(self).order@.len()
                        ==> #[trigger] final(self).order@[i] == old(self).order@[i]
                },
                Err(e) => error_holds(table@, root@, e),
            },
        decreases fresh_count(old(self).marks@),
    {
        proof {
            lemma_fresh_take(self.marks@, t as int);
        }
        let ghost entry = *self;
        self.marks.set(t, Mark::Active);
        self.path.push(t);
        assert(self.inv(table@)) by {
            assert forall|u: int| 0 <= u < table@.len() && #[trigger] self.marks@[u] == Mark::Active
                implies exists|p: int| 0 <= p < self.path@.len() && self.path@[p] == u by {
                if u == t {
                    assert(self.path@[self.path@.len() - 1] == t);
                } else {
                    let p = choose|p: int| 0 <= p < entry.path@.len() && entry.path@[p] == u;
                    assert(self.path@[p] == u);
                }
            }
        }
        let pkg = &table[t];
        let mut my_deps: Vec<usize> = Vec::new();
        let mut k: usize = 0;
        while k < pkg.dependencies.len()
            invariant
                self.inv(table@),
                self.reach_ok(table@, root@),
                pkg == table@[t as int],
                t < table@.len(),
                canonical(table@, t as int),
                self.path@ == entry.path@.push(t),
                entry.marks@ == old(self).marks@,
                self.marks@[t as int] == Mark::Active,
                self.marks@.len() == entry.marks@.len(),
                forall|x: int| 0 <= x < table@.len() && x != t && entry.marks@[x] != Mark::Fresh
                    ==> #[trigger] self.marks@[x] == entry.marks@[x],
                forall|x: int| 0 <= x < table@.len() && #[trigger] self.marks@[x] == Mark::Fresh
                    ==> entry.marks@[x] == Mark::Fresh,
                fresh_count(self.marks@) < fresh_count(entry.marks@),
                entry.order@.len() <= self.order@.len(),
                forall|i: int| 0 <= i < entry.order@.len() ==> #[trigger] self.order@[i] == entry.order@[i],
                k <= pkg.dependencies@.len(),
                my_deps@.len() == k,
                forall|j: int| 0 <= j < k ==> {
                    &&& #[trigger] my_deps@[j] < self.order@.len()
                    &&& table@[self.order@[my_deps@[j] as int] as int].name@ == pkg.dependencies@[j]@
                },
            decreases pkg.dependencies.len() - k,
        {
            let dep = &pkg.dependencies[k];
            match lookup(table, dep) {
                None => {
                    proof {
                        assert(has_edge(table@, pkg.name@, pkg.dependencies@[k as int]@));
                    }
                    return Err(
                        ResolveError::UnresolvedDependency {
                            name: dep.clone(),
                            requested_by: Some(pkg.name.clone()),
                        },
                    );
                },
                Some(u) => {
                    proof {
                        assert(has_edge(table@, pkg.name@, table@[u as int].name@));
                    }
                    match self.marks[u] {
                        Mark::Active => {
                            let p = self.position_of(table, u);
                            let path = self.cycle_names(table, p, Ghost(k as int));
                            return Err(ResolveError::CyclicDependency { path });
                        },
                        Mark::Fresh => {
                            let ghost before = *self;
                            proof {
                                assert(self.path@.last() == t);
                                assert(fresh_count(self.marks@) < fresh_count(old(self).marks@));
                            }
                            match self.visit(table, u, root) {
                                Ok(_) => {},
                                Err(e) => {
                                    return Err(e);
                                },
                            }
                            proof {
                                lemma_fresh_mono(before.marks@, self.marks@);
                            }
                        },
                        Mark::Done => {},
                    }
                    my_deps.push(self.node_of[u]);
                },
            }
            k = k + 1;
        }
        let ghost c = self.path@.map_values(|x: usize| table@[x as int].name@);
        proof {
            assert(is_chain(table@, c)) by {
                assert forall|i: int| 0 <= i < c.len() - 1 implies has_edge(table@, c[i], #[trigger] c[i + 1]) by {
                    assert(has_edge(table@, table@[self.path@[i] as int].name@, table@[self.path@[i + 1] as int].name@));
                }
            }
            assert(c[0] == root@);
            assert(c[c.len() - 1] == table@[t as int].name@);
        }
        let idx = self.order.len();
        self.order.push(t);
        self.deps.push(my_deps);
        self.node_of.set(t, idx);
        self.marks.set(t, Mark::Done);
        self.path.pop();
        proof {
            assert(self.path@ =~= entry.path@);
            assert forall|i: int| 0 <= i < self.order@.len() implies reachable(
                table@,
                root@,
                table@[#[trigger] self.order@[i] as int].name@,
            ) by {
                if i == self.order@.len() - 1 {
                    assert(is_chain(table@, c) && c[0] == root@ && c[c.len() - 1] == table@[t as int].name@);
                }
            }
        }
        Ok(())
    }

    /// Where the active entry `u` stands on the path.
    fn position_of(&self, table: &Vec<Package>, u: usize) -> (p: usize)
        requires
            self.inv(table@),
            u < table@.len(),
            self.marks@[u as int] == Mark::Active,
        ensures
            p < self.path@.len(),
            self.path@[p as int] == u,
    {
        let mut p: usize = 0;
        while p < self.path.len()
            invariant
                self.inv(table@),
                u < table@.len(),
                self.marks@[u as int] == Mark::Active,
                p <= self.path@.len(),
                forall|q: int| 0 <= q < p ==> self.path@[q] != u,
            decreases self.path.len() - p,
        {
            if self.path[p] == u {
                return p;
            }
            p = p + 1;
        }
        proof {
            let q = choose|q: int| 0 <= q < self.path@.len() && self.path@[q] == u;
            assert(self.path@[q] != u);
        }
        0
    }
}

fn holds(v: &Vec<usize>, x: usize) -> (r: bool)
    ensures
        r == v@.contains(x),
{
    let mut i: usize = 0;
    while i < v.len()
        invariant
            i <= v@.len(),
            forall|j: int| 0 <= j < i ==> v@[j] != x,
        decreases v.len() - i,
    {
        if v[i] == x {
            return true;
        }
        i = i + 1;
    }
    false
}

/// For each node, the nodes whose dependency lists name it, in ascending order.
fn reverse_edges(deps: &Vec<Vec<usize>>) -> (r: Vec<Vec<usize>>)
    ensures
        r@.len() == deps@.len(),
        forall|i: int, j: int|
            0 <= i < deps@.len() && 0 <= j < deps@.len() ==> ((#[trigger] r@[i])@.contains(
                j as usize,
            ) <==> (#[trigger] deps@[j])@.contains(i as usize)),
        forall|i: int, k: int|
            0 <= i < deps@.len() && 0 <= k < r@[i]@.len() ==> #[trigger] r@[i]@[k] < deps@.len(),
{
    let n = deps.len();
    let mut r: Vec<Vec<usize>> = Vec::new();
    let mut i: usize = 0;
    while i < n
        invariant
            n == deps@.len(),
            i <= n,
            r@.len() == i,
            forall|a: int, j: int|
                0 <= a < i && 0 <= j < n ==> ((#[trigger] r@[a])@.contains(j as usize) <==> (
                #[trigger] deps@[j])@.contains(a as usize)),
            forall|a: int, k: int| 0 <= a < i && 0 <= k < r@[a]@.len() ==> #[trigger] r@[a]@[k] < n,
        decreases n - i,
    {
        let mut row: Vec<usize> = Vec::new();
        let mut j: usize = 0;
        while j < n
            invariant
                n == deps@.len(),
                i < n,
                j <= n,
                forall|x: usize| #[trigger] row@.contains(x) <==> (x < j && deps@[x as int]@.contains(i)),
                forall|k: int| 0 <= k < row@.len() ==> #[trigger] row@[k] < j,
            decreases n - j,
        {
            let ghost before = row@;
            if holds(&deps[j], i) {
                row.push(j);
                proof {
                    assert forall|x: usize| #[trigger] row@.contains(x) <==> (x < j + 1 && deps@[x as int]@.contains(i)) by {
                        if x == j {
                            assert(row@[row@.len() - 1] == x);
                        }
                        if row@.contains(x) && x != j {
                            let k = choose|k: int| 0 <= k < row@.len() && row@[k] == x;
                            assert(before[k] == x);
                            assert(before.contains(x));
                        }
                        if x < j && deps@[x as int]@.contains(i) {
                            assert(before.contains(x));
                            let k = choose|k: int| 0 <= k < before.len() && before[k] == x;
                            assert(row@[k] == x);
                        }
                    }
                }
            } else {
                proof {
                    assert forall|x: usize| #[trigger] row@.contains(x) <==> (x < j + 1 && deps@[x as int]@.contains(i)) by {
                        if row@.contains(x) {
                            let k = choose|k: int| 0 <= k < row@.len() && row@[k] == x;
                            assert(row@[k] < j);
                        }
                    }
                }
            }
            j = j + 1;
        }
        r.push(row);
        proof {
            assert forall|a: int, x: int|
                0 <= a < i + 1 && 0 <= x < n implies ((#[trigger] r@[a])@.contains(x as usize) <==> (
                #[trigger] deps@[x])@.contains(a as usize)) by {
                if a == i {
                    assert(row@.contains(x as usize) <==> (x < n && deps@[x]@.contains(i)));
                }
            }
        }
        i = i + 1;
    }
    r
}

/// Builds the dependency graph of `root` from a table of manifests.
///
/// The walk is depth first from `root`. A package is placed only after all its
/// dependencies, each name is resolved once through its first manifest in the
/// table, and a package that is reached again while its own dependencies are
/// still being walked closes a cycle, which is reported and ends the walk.
pub fn resolve(root: &String, table: Vec<Package>) -> (r: Result<DependencyGraph, ResolveError>)
    ensures
        match r {
            Ok(g) => {
                &&& g.wf()
                &&& g.packages@ == table@
                &&& g.node_count() > 0
                &&& g.node_name(g.node_count() - 1) == root@
                &&& forall|i: int|
                    0 <= i < g.node_count() ==> reachable(table@, root@, #[trigger] g.node_name(i))
            },
            Err(e) => error_holds(table@, root@, e),
        },
{
    let start = match lookup(&table, root) {
        None => {
            return Err(ResolveError::UnresolvedDependency { name: root.clone(), requested_by: None });
        },
        Some(t) => t,
    };
    let n = table.len();
    let mut marks: Vec<Mark> = Vec::new();
    let mut node_of: Vec<usize> = Vec::new();
    let mut i: usize = 0;
    while i < n
        invariant
            n == table@.len(),
            i <= n,
            marks@.len() == i,
            node_of@.len() == i,
            forall|x: int| 0 <= x < i ==> #[trigger] marks@[x] == Mark::Fresh,
        decreases n - i,
    {
        marks.push(Mark::Fresh);
        node_of.push(0);
        i = i + 1;
    }
    let mut walk = Walk { marks, node_of, order: Vec::new(), deps: Vec::new(), path: Vec::new() };
    match walk.visit(&table, start, Ghost(root@)) {
        Ok(_) => {},
        Err(e) => {
            return Err(e);
        },
    }
    let dependents = reverse_edges(&walk.deps);
    let g = DependencyGraph { packages: table, order: walk.order, deps: walk.deps, dependents };
    proof {
        assert forall|a: int, b: int|
            0 <= a < g.node_count() && 0 <= b < g.node_count() && a != b
                implies #[trigger] g.order@[a] != #[trigger] g.order@[b] by {
            assert(walk.node_of@[g.order@[a] as int] == a);
            assert(walk.node_of@[g.order@[b] as int] == b);
        }
        assert forall|a: int, k: int|
            0 <= a < g.node_count() && 0 <= k < g.deps@[a]@.len() implies {
                &&& 0 <= #[trigger] g.dep(a, k) < a
                &&& g.node_name(g.dep(a, k)) == g.node_package(a).dependencies@[k]@
            } by {
            assert(walk.deps@[a]@[k] < a);
        }
        assert(g.order@.last() == start);
        assert forall|i: int| 0 <= i < g.node_count() implies reachable(table@, root@, #[trigger] g.node_name(i)) by {
            assert(reachable(table@, root@, table@[walk.order@[i] as int].name@));
        }
    }
    Ok(g)
}

/// A manifest that still has to be fetched before `resolve` can see the whole
/// graph: `name` is missing from the table, and `requested_by` names the package
/// that depends on it (none for the root).
pub struct Request {
    pub name: String,
    pub requested_by: Option<String>,
}

/// The first name that the table refers to but holds no manifest for: the root
/// first, then the dependencies of each manifest in table order.
pub fn next_unknown(root: &String, table: &Vec<Package>) -> (r: Option<Request>)
    ensures
        match r {
            None => {
                &&& !absent(table@, root@)
                &&& forall|t: int, k: int|
                    0 <= t < table@.len() && 0 <= k < table@[t].dependencies@.len() ==> !absent(
                        table@,
                        #[trigger] table@[t].dependencies@[k]@,
                    )
            },
            Some(q) => {
                &&& absent(table@, q.name@)
                &&& match q.requested_by {
                    None => q.name@ == root@,
                    Some(b) => exists|t: int, k: int|
                        0 <= t < table@.len() && table@[t].name@ == b@ && 0 <= k
                            < table@[t].dependencies@.len() && #[trigger] table@[t].dependencies@[k]@
                            == q.name@,
                }
            },
        },
{
    match lookup(table, root) {
        None => {
            return Some(Request { name: root.clone(), requested_by: None });
        },
        Some(_) => {},
    }
    let mut t: usize = 0;
    while t < table.len()
        invariant
            t <= table@.len(),
            !absent(table@, root@),
            forall|a: int, k: int|
                0 <= a < t && 0 <= k < table@[a].dependencies@.len() ==> !absent(
                    table@,
                    #[trigger] table@[a].dependencies@[k]@,
                ),
        decreases table.len() - t,
    {
        let mut k: usize = 0;
        while k < table[t].dependencies.len()
            invariant
                t < table@.len(),
                k <= table@[t as int].dependencies@.len(),
                forall|j: int| 0 <= j < k ==> !absent(table@, #[trigger] table@[t as int].dependencies@[j]@),
            decreases table[t as int].dependencies@.len() - k,
        {
            let dep = &table[t].dependencies[k];
            match lookup(table, dep) {
                None => {
                    return Some(
                        Request { name: dep.clone(), requested_by: Some(table[t].name.clone()) },
                    );
                },
                Some(_) => {},
            }
            k = k + 1;
        }
        t = t + 1;
    }
    None
}

proof fn lemma_canonical_unique(table: Seq<Package>, a: int, b: int)
    requires
        canonical(table, a),
        canonical(table, b),
        table[a].name@ == table[b].name@,
    ensures
        a == b,
{
}

proof fn lemma_chain(g: DependencyGraph, path: Seq<Seq<char>>, i: int, m: int)
    requires
        g.wf(),
        is_cycle(g.packages@, path),
        0 <= i < g.node_count(),
        g.node_name(i) == path[0],
        0 <= m < path.len(),
    ensures
        exists|x: int| 0 <= x <= i - m && g.node_name(x) == path[m],
    decreases m,
{
    if m > 0 {
        lemma_chain(g, path, i, m - 1);
        let x = choose|x: int| 0 <= x <= i - (m - 1) && g.node_name(x) == path[m - 1];
        let j = m - 1;
        assert(has_edge(g.packages@, path[j], path[j + 1]));
        let (t, k) = choose|t: int, k: int|
            canonical(g.packages@, t) && g.packages@[t].name@ == path[m - 1] && 0 <= k
                < g.packages@[t].dependencies@.len() && #[trigger] g.packages@[t].dependencies@[k]@
                == path[m];
        assert(canonical(g.packages@, g.order@[x] as int));
        lemma_canonical_unique(g.packages@, t, g.order@[x] as int);
        let y = g.dep(x, k);
        assert(0 <= y < x);
        assert(g.node_name(y) == path[m]);
    }
}

/// No package of a well-formed graph lies on a dependency cycle, a
/// self-dependency included. Since `resolve` only returns well-formed graphs
/// over the table it was given, and every dependency of a node is a node, a
/// table in which the root reaches a cycle can only end in an error.
pub proof fn lemma_cycle_not_in_graph(g: DependencyGraph, path: Seq<Seq<char>>, i: int)
    requires
        g.wf(),
        is_cycle(g.packages@, path),
        0 <= i < g.node_count(),
    ensures
        g.node_name(i) != path[0],
{
    if g.node_name(i) == path[0] {
        lemma_chain(g, path, i, path.len() - 1);
        let x = choose|x: int| 0 <= x <= i - (path.len() - 1) && g.node_name(x) == path[path.len() - 1];
        lemma_names_distinct(g, x, i);
    }
}

/// A well-formed graph is closed under dependencies: whatever a chain of
/// dependency edges reaches from a node is a node too. With the `reachable`
/// clause of `resolve`, the nodes of a resolved graph are exactly the packages
/// that the root reaches.
pub proof fn lemma_graph_closed(g: DependencyGraph, c: Seq<Seq<char>>, i: int)
    requires
        g.wf(),
        is_chain(g.packages@, c),
        0 <= i < g.node_count(),
        g.node_name(i) == c[0],
    ensures
        exists|x: int| 0 <= x < g.node_count() && g.node_name(x) == c[c.len() - 1],
    decreases c.len(),
{
    if c.len() > 1 {
        let m = c.len() - 1;
        let front = c.drop_last();
        assert forall|j: int| 0 <= j < front.len() - 1 implies has_edge(g.packages@, front[j], #[trigger] front[j + 1]) by {
            assert(has_edge(g.packages@, c[j], c[j + 1]));
        }
        lemma_graph_closed(g, front, i);
        let x = choose|x: int| 0 <= x < g.node_count() && g.node_name(x) == front[front.len() - 1];
        let j = m - 1;
        assert(has_edge(g.packages@, c[j], c[j + 1]));
        let (t, k) = choose|t: int, k: int|
            canonical(g.packages@, t) && g.packages@[t].name@ == c[j] && 0 <= k
                < g.packages@[t].dependencies@.len() && #[trigger] g.packages@[t].dependencies@[k]@
                == c[j + 1];
        assert(canonical(g.packages@, g.order@[x] as int));
        lemma_canonical_unique(g.packages@, t, g.order@[x] as int);
        let y = g.dep(x, k);
        assert(0 <= y < x);
        assert(g.node_name(y) == c[m]);
    }
}

} // verus!
