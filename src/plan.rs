use vstd::prelude::*;
use crate::resolve::DependencyGraph;

verus! {

/// The install order: groups of nodes with no edges between them, installed
/// group after group. `group_of[i]` is the group of node `i`.
pub struct InstallPlan {
    pub groups: Vec<Vec<usize>>,
    pub group_of: Vec<usize>,
}

/// The groups' entries, group after group.
pub open spec fn flat(groups: Seq<Vec<usize>>) -> Seq<usize>
    decreases groups.len(),
{
    if groups.len() == 0 {
        Seq::empty()
    } else {
        flat(groups.drop_last()) + groups.last()@
    }
}

/// The group that position `q` of `flat(groups)` comes from.
pub open spec fn group_at(groups: Seq<Vec<usize>>, q: int) -> int
    decreases groups.len(),
{
    if groups.len() == 0 {
        0
    } else if q >= flat(groups.drop_last()).len() {
        groups.len() - 1
    } else {
        group_at(groups.drop_last(), q)
    }
}

proof fn lemma_group_at(groups: Seq<Vec<usize>>, q: int)
    requires
        0 <= q < flat(groups).len(),
    ensures
        0 <= group_at(groups, q) < groups.len(),
        groups[group_at(groups, q)]@.contains(flat(groups)[q]),
    decreases groups.len(),
{
    let front = flat(groups.drop_last());
    if q >= front.len() {
        assert(groups.last()@[q - front.len()] == flat(groups)[q]);
    } else {
        lemma_group_at(groups.drop_last(), q);
        assert(flat(groups)[q] == front[q]);
    }
}

proof fn lemma_group_at_mono(groups: Seq<Vec<usize>>, q1: int, q2: int)
    requires
        0 <= q1 <= q2 < flat(groups).len(),
    ensures
        group_at(groups, q1) <= group_at(groups, q2),
    decreases groups.len(),
{
    let front = flat(groups.drop_last());
    if q2 < front.len() {
        lemma_group_at_mono(groups.drop_last(), q1, q2);
    } else if q1 < front.len() {
        lemma_group_at(groups.drop_last(), q1);
    }
}

impl InstallPlan {
    pub open spec fn level(&self, i: int) -> int {
        self.group_of@[i] as int
    }

    /// The plan places each node of `g` in the group given by the length of the
    /// longest chain of dependencies below it; each group lists its nodes once,
    /// in ascending node order, and there is no group past the highest one used.
    /// Two nodes of one group never lie on one dependency chain, so their node
    /// order is also the order in which resolution first reached them.
    pub open spec fn is_plan_of(&self, g: DependencyGraph) -> bool {
        &&& self.group_of@.len() == g.node_count()
        &&& forall|i: int| 0 <= i < g.node_count() ==> #[trigger] self.level(i) < self.groups@.len()
        &&& forall|i: int|
            0 <= i < g.node_count() && g.deps@[i]@.len() == 0 ==> #[trigger] self.level(i) == 0
        &&& forall|i: int, k: int|
            0 <= i < g.node_count() && 0 <= k < g.deps@[i]@.len() ==> self.level(
                #[trigger] g.dep(i, k),
            ) < self.level(i)
        &&& forall|i: int|
            0 <= i < g.node_count() && g.deps@[i]@.len() > 0 ==> exists|k: int|
                0 <= k < g.deps@[i]@.len() && self.level(#[trigger] g.dep(i, k)) + 1 == self.level(
                    i,
                )
        &&& forall|a: int, j: int|
            0 <= a < self.groups@.len() && 0 <= j < self.groups@[a]@.len() ==> {
                &&& #[trigger] self.groups@[a]@[j] < g.node_count()
                &&& self.level(self.groups@[a]@[j] as int) == a
            }
        &&& forall|a: int, j1: int, j2: int|
            0 <= a < self.groups@.len() && 0 <= j1 < j2 < self.groups@[a]@.len()
                ==> #[trigger] self.groups@[a]@[j1] < #[trigger] self.groups@[a]@[j2]
        &&& forall|i: int|
            0 <= i < g.node_count() ==> (#[trigger] self.groups@[self.level(i)])@.contains(
                i as usize,
            )
        &&& g.node_count() == 0 ==> self.groups@.len() == 0
        &&& g.node_count() > 0 ==> exists|i: int|
            0 <= i < g.node_count() && #[trigger] self.level(i) + 1 == self.groups@.len()
    }

    /// All nodes, group after group.
    pub fn install_order(&self) -> (r: Vec<usize>)
        ensures
            r@ == flat(self.groups@),
            forall|x: usize| #[trigger] r@.contains(x) <==> exists|a: int|
                0 <= a < self.groups@.len() && (#[trigger] self.groups@[a])@.contains(x),
    {
        let mut r: Vec<usize> = Vec::new();
        let mut a: usize = 0;
        while a < self.groups.len()
            invariant
                a <= self.groups@.len(),
                r@ == flat(self.groups@.subrange(0, a as int)),
                forall|x: usize| #[trigger] r@.contains(x) <==> exists|b: int|
                    0 <= b < a && (#[trigger] self.groups@[b])@.contains(x),
            decreases self.groups.len() - a,
        {
            let row = &self.groups[a];
            let ghost start = r@;
            let mut j: usize = 0;
            while j < row.len()
                invariant
                    a < self.groups@.len(),
                    *row == self.groups@[a as int],
                    j <= row@.len(),
                    r@ == start + row@.subrange(0, j as int),
                decreases row.len() - j,
            {
                r.push(row[j]);
                proof {
                    assert(r@ =~= start + row@.subrange(0, j + 1));
                }
                j = j + 1;
            }
            proof {
                assert(row@.subrange(0, row@.len() as int) =~= row@);
                assert(self.groups@.subrange(0, a + 1).drop_last() =~= self.groups@.subrange(0, a as int));
                assert forall|x: usize| #[trigger] r@.contains(x) <==> exists|b: int|
                    0 <= b < a + 1 && (#[trigger] self.groups@[b])@.contains(x) by {
                    if r@.contains(x) {
                        let q = choose|q: int| 0 <= q < r@.len() && r@[q] == x;
                        if q < start.len() {
                            assert(start[q] == x);
                            assert(start.contains(x));
                        } else {
                            assert(row@[q - start.len()] == x);
                            assert(self.groups@[a as int]@.contains(x));
                        }
                    }
                    if exists|b: int| 0 <= b < a + 1 && (#[trigger] self.groups@[b])@.contains(x) {
                        let b = choose|b: int| 0 <= b < a + 1 && (#[trigger] self.groups@[b])@.contains(x);
                        if b < a {
                            assert(start.contains(x));
                            let q = choose|q: int| 0 <= q < start.len() && start[q] == x;
                            assert(r@[q] == x);
                        } else {
                            let q = choose|q: int| 0 <= q < row@.len() && row@[q] == x;
                            assert(r@[start.len() + q] == x);
                        }
                    }
                }
            }
            a = a + 1;
        }
        proof {
            assert(self.groups@.subrange(0, self.groups@.len() as int) =~= self.groups@);
        }
        r
    }
}

/// Orders the graph into install groups. Group 0 holds the nodes without
/// dependencies; each later group holds the nodes whose dependencies all stand
/// in earlier groups, one of them in the group just before.
pub fn plan(graph: &DependencyGraph) -> (p: InstallPlan)
    requires
        graph.wf(),
    ensures
        p.is_plan_of(*graph),
{
    let n = graph.order.len();
    let mut level: Vec<usize> = Vec::new();
    let mut top: usize = 0;
    let ghost mut top_at: int = 0;
    let mut i: usize = 0;
    while i < n
        invariant
            graph.wf(),
            n == graph.node_count(),
            i <= n,
            level@.len() == i,
            forall|j: int| 0 <= j < i ==> #[trigger] level@[j] <= j,
            forall|j: int| 0 <= j < i ==> #[trigger] level@[j] <= top,
            i > 0 ==> 0 <= top_at < i && level@[top_at] == top,
            i == 0 ==> top == 0,
            forall|j: int| 0 <= j < i && graph.deps@[j]@.len() == 0 ==> #[trigger] level@[j] == 0,
            forall|j: int, k: int|
                0 <= j < i && 0 <= k < graph.deps@[j]@.len() ==> level@[#[trigger] graph.dep(j, k)]
                    < level@[j],
            forall|j: int|
                0 <= j < i && graph.deps@[j]@.len() > 0 ==> exists|k: int|
                    0 <= k < graph.deps@[j]@.len() && level@[#[trigger] graph.dep(j, k)] + 1
                        == level@[j],
        decreases n - i,
    {
        let ds = &graph.deps[i];
        let mut lvl: usize = 0;
        let ghost mut from: int = 0;
        let mut k: usize = 0;
        while k < ds.len()
            invariant
                graph.wf(),
                n == graph.node_count(),
                i < n,
                level@.len() == i,
                *ds == graph.deps@[i as int],
                forall|j: int| 0 <= j < i ==> #[trigger] level@[j] <= j,
                k <= ds@.len(),
                lvl <= i,
                forall|q: int| 0 <= q < k ==> level@[#[trigger] graph.dep(i as int, q)] < lvl,
                k > 0 ==> 0 <= from < k && level@[graph.dep(i as int, from)] + 1 == lvl,
                k == 0 ==> lvl == 0,
            decreases ds.len() - k,
        {
            let d = ds[k];
            assert(graph.dep(i as int, k as int) == d);
            if level[d] + 1 > lvl {
                lvl = level[d] + 1;
                proof {
                    from = k as int;
                }
            }
            k = k + 1;
        }
        level.push(lvl);
        if lvl > top || i == 0 {
            top = lvl;
            proof {
                top_at = i as int;
            }
        }
        proof {
            assert(level@[top_at] == top);
            assert forall|j: int|
                0 <= j < i + 1 && graph.deps@[j]@.len() > 0 implies exists|q: int|
                    0 <= q < graph.deps@[j]@.len() && level@[#[trigger] graph.dep(j, q)] + 1
                        == level@[j] by {
                if j == i {
                    assert(level@[graph.dep(i as int, from)] + 1 == level@[j]);
                }
            }
            assert forall|j: int, q: int|
                0 <= j < i + 1 && 0 <= q < graph.deps@[j]@.len() implies level@[#[trigger] graph.dep(j, q)]
                    < level@[j] by {
                if j == i {
                    assert(level@[graph.dep(i as int, q)] < lvl);
                }
            }
        }
        i = i + 1;
    }
    let count: usize = if n == 0 { 0 } else { top + 1 };
    let mut groups: Vec<Vec<usize>> = Vec::new();
    let mut a: usize = 0;
    while a < count
        invariant
            n == level@.len(),
            count == 0 || count == top + 1,
            forall|j: int| 0 <= j < n ==> #[trigger] level@[j] <= top,
            a <= count,
            groups@.len() == a,
            forall|b: int, j: int|
                0 <= b < a && 0 <= j < groups@[b]@.len() ==> {
                    &&& #[trigger] groups@[b]@[j] < n
                    &&& level@[groups@[b]@[j] as int] == b
                },
            forall|b: int, j1: int, j2: int|
                0 <= b < a && 0 <= j1 < j2 < groups@[b]@.len() ==> #[trigger] groups@[b]@[j1]
                    < #[trigger] groups@[b]@[j2],
            forall|j: int| 0 <= j < n && level@[j] < a ==> (#[trigger] groups@[level@[j] as int])@.contains(j as usize),
        decreases count - a,
    {
        let mut row: Vec<usize> = Vec::new();
        let mut j: usize = 0;
        while j < n
            invariant
                n == level@.len(),
                j <= n,
                forall|q: int| 0 <= q < row@.len() ==> #[trigger] row@[q] < j && level@[row@[q] as int] == a,
                forall|q1: int, q2: int| 0 <= q1 < q2 < row@.len() ==> #[trigger] row@[q1] < #[trigger] row@[q2],
                forall|x: int| 0 <= x < j && level@[x] == a ==> row@.contains(x as usize),
            decreases n - j,
        {
            if level[j] == a {
                let ghost before = row@;
                row.push(j);
                proof {
                    assert forall|x: int| 0 <= x < j + 1 && level@[x] == a implies row@.contains(x as usize) by {
                        if x < j {
                            assert(before.contains(x as usize));
                            let q = choose|q: int| 0 <= q < before.len() && before[q] == x as usize;
                            assert(row@[q] == x as usize);
                        } else {
                            assert(row@[row@.len() - 1] == x as usize);
                        }
                    }
                }
            }
            j = j + 1;
        }
        groups.push(row);
        proof {
            assert forall|x: int| 0 <= x < n && level@[x] < a + 1 implies (#[trigger] groups@[level@[x] as int])@.contains(x as usize) by {
                if level@[x] == a {
                    assert(groups@[a as int] == row);
                }
            }
        }
        a = a + 1;
    }
    let p = InstallPlan { groups, group_of: level };
    proof {
        if n > 0 {
            assert(p.level(top_at) + 1 == p.groups@.len());
        }
        assert forall|j: int| 0 <= j < n implies #[trigger] p.level(j) < p.groups@.len() by {
            assert(level@[j] <= top);
        }
    }
    p
}

/// Every dependency is installed in a strictly earlier group than the package
/// that needs it: reading the groups in order lists each dependency before each
/// of its dependents.
pub proof fn lemma_plan_respects_dependencies(
    g: DependencyGraph,
    p: InstallPlan,
    a: int,
    j: int,
    b: int,
    q: int,
)
    requires
        g.wf(),
        p.is_plan_of(g),
        0 <= a < p.groups@.len(),
        0 <= j < p.groups@[a]@.len(),
        0 <= b < p.groups@.len(),
        0 <= q < p.groups@[b]@.len(),
        g.deps@[p.groups@[b]@[q] as int]@.contains(p.groups@[a]@[j]),
    ensures
        a < b,
{
    let x = p.groups@[b]@[q] as int;
    let y = p.groups@[a]@[j];
    let k = choose|k: int| 0 <= k < g.deps@[x]@.len() && g.deps@[x]@[k] == y;
    assert(g.dep(x, k) == y);
}

/// The flattened plan is a topological order: wherever a dependency and a
/// package that needs it both stand in it, the dependency comes first.
pub proof fn lemma_flat_order_topological(g: DependencyGraph, p: InstallPlan, qx: int, qd: int)
    requires
        g.wf(),
        p.is_plan_of(g),
        0 <= qx < flat(p.groups@).len(),
        0 <= qd < flat(p.groups@).len(),
        g.deps@[flat(p.groups@)[qx] as int]@.contains(flat(p.groups@)[qd]),
    ensures
        qd < qx,
{
    let f = flat(p.groups@);
    lemma_group_at(p.groups@, qx);
    lemma_group_at(p.groups@, qd);
    let ax = group_at(p.groups@, qx);
    let ad = group_at(p.groups@, qd);
    let jx = choose|j: int| 0 <= j < p.groups@[ax]@.len() && p.groups@[ax]@[j] == f[qx];
    let jd = choose|j: int| 0 <= j < p.groups@[ad]@.len() && p.groups@[ad]@[j] == f[qd];
    lemma_plan_respects_dependencies(g, p, ad, jd, ax, jx);
    if qx <= qd {
        lemma_group_at_mono(p.groups@, qx, qd);
    }
}

/// Each node of the graph stands in exactly one place of the plan: an entry of
/// group `a` belongs to the group of its node, and no group lists a node twice.
pub proof fn lemma_plan_places_once(g: DependencyGraph, p: InstallPlan, a: int, j1: int, j2: int)
    requires
        g.wf(),
        p.is_plan_of(g),
        0 <= a < p.groups@.len(),
        0 <= j1 < p.groups@[a]@.len(),
        0 <= j2 < p.groups@[a]@.len(),
        p.groups@[a]@[j1] == p.groups@[a]@[j2],
    ensures
        j1 == j2,
        p.level(p.groups@[a]@[j1] as int) == a,
{
    if j1 < j2 {
        assert(p.groups@[a]@[j1] < p.groups@[a]@[j2]);
    } else if j2 < j1 {
        assert(p.groups@[a]@[j2] < p.groups@[a]@[j1]);
    }
}

} // verus!
