use vstd::prelude::*;
use crate::resolve::DependencyGraph;

verus! {

/// Why a package was not installed in this run.
#[derive(PartialEq, Eq, Structural, Clone, Copy, Debug)]
pub enum SkipCause {
    /// The node `failed`, which it depends on directly or through others, failed.
    FailedDependency { failed: usize },
    /// An earlier run installed it and reinstalling was not forced.
    AlreadyInstalled,
}

/// Why a package's install failed.
#[derive(PartialEq, Eq, Structural, Clone, Copy, Debug)]
pub enum FailReason {
    CloneFailed,
}

/// The state of one package in the current run. `Pending` and `InProgress`
/// are open; the other three are terminal and never change again.
#[derive(PartialEq, Eq, Structural, Clone, Copy, Debug)]
pub enum Status {
    Pending,
    InProgress,
    /// Cloned; `failed_commands` formula commands exited with a failure.
    Succeeded { failed_commands: usize },
    Failed(FailReason),
    Skipped(SkipCause),
}

pub open spec fn is_terminal(s: Status) -> bool {
    s is Succeeded || s is Failed || s is Skipped
}

/// The transitions a ledger entry may take: forward only, never out of a
/// terminal state.
pub open spec fn may_move(from: Status, to: Status) -> bool {
    match from {
        Status::Pending => !(to is Pending),
        Status::InProgress => is_terminal(to),
        _ => false,
    }
}

/// Node `j` is node `t` or needs it, directly or through other nodes.
pub open spec fn depends_on(g: DependencyGraph, j: int, t: int) -> bool
    decreases j,
{
    j == t || (0 <= j < g.node_count() && exists|k: int|
        0 <= k < g.deps@[j]@.len() && 0 <= #[trigger] g.dep(j, k) < j && depends_on(
            g,
            g.dep(j, k),
            t,
        ))
}

proof fn lemma_depends_not_below(g: DependencyGraph, j: int, t: int)
    requires
        g.wf(),
        depends_on(g, j, t),
    ensures
        j >= t,
    decreases j,
{
    if j != t {
        let k = choose|k: int|
            0 <= k < g.deps@[j]@.len() && 0 <= #[trigger] g.dep(j, k) < j && depends_on(
                g,
                g.dep(j, k),
                t,
            );
        lemma_depends_not_below(g, g.dep(j, k), t);
    }
}

/// What the installer does with a package when its turn comes.
#[derive(PartialEq, Eq, Structural, Clone, Copy, Debug)]
pub enum Start {
    /// Clone it and run its formula.
    Install,
    /// Installed by an earlier run; nothing to do.
    AlreadyInstalled,
    /// Its entry is already settled (a dependency failed): do not touch it.
    Skip,
}

pub open spec fn start_of(s: Status, installed: bool, force: bool) -> Start {
    if !(s is Pending) {
        Start::Skip
    } else if installed && !force {
        Start::AlreadyInstalled
    } else {
        Start::Install
    }
}

pub open spec fn status_after_start(s: Status, installed: bool, force: bool) -> Status {
    match start_of(s, installed, force) {
        Start::Skip => s,
        Start::AlreadyInstalled => Status::Skipped(SkipCause::AlreadyInstalled),
        Start::Install => Status::InProgress,
    }
}

/// What to do with the rest of a formula once a command has failed.
#[derive(PartialEq, Eq, Structural, Clone, Copy, Debug)]
pub enum CommandPolicy {
    ContinueOnError,
    StopOnError,
}

/// Whether the next formula command runs, after one that exited `ok`.
pub fn keep_running(policy: CommandPolicy, ok: bool) -> (r: bool)
    ensures
        r == (ok || policy == CommandPolicy::ContinueOnError),
{
    ok || policy == CommandPolicy::ContinueOnError
}

/// Counts of settled entries.
pub struct RunSummary {
    pub succeeded: usize,
    pub failed: usize,
    pub skipped: usize,
}

pub open spec fn count_where(s: Seq<Status>, f: spec_fn(Status) -> bool) -> nat
    decreases s.len(),
{
    if s.len() == 0 {
        0
    } else {
        count_where(s.drop_last(), f) + if f(s.last()) {
            1nat
        } else {
            0nat
        }
    }
}

proof fn lemma_count_bound(s: Seq<Status>, f: spec_fn(Status) -> bool)
    ensures
        count_where(s, f) <= s.len(),
    decreases s.len(),
{
    if s.len() > 0 {
        lemma_count_bound(s.drop_last(), f);
    }
}

/// The outcome of every node of the plan in the current run, by node index.
pub struct RunLedger {
    entries: Vec<Status>,
}

impl View for RunLedger {
    type V = Seq<Status>;

    closed spec fn view(&self) -> Seq<Status> {
        self.entries@
    }
}

impl RunLedger {
    /// A ledger of `n` entries, all `Pending`.
    pub fn new(n: usize) -> (r: RunLedger)
        ensures
            r@.len() == n,
            forall|i: int| 0 <= i < n ==> r@[i] == Status::Pending,
    {
        let mut entries: Vec<Status> = Vec::new();
        let mut i: usize = 0;
        while i < n
            invariant
                i <= n,
                entries@.len() == i,
                forall|j: int| 0 <= j < i ==> entries@[j] == Status::Pending,
            decreases n - i,
        {
            entries.push(Status::Pending);
            i = i + 1;
        }
        RunLedger { entries }
    }

    pub fn len(&self) -> (r: usize)
        ensures
            r == self@.len(),
    {
        self.entries.len()
    }

    pub fn get(&self, i: usize) -> (r: Status)
        requires
            i < self@.len(),
        ensures
            r == self@[i as int],
    {
        self.entries[i]
    }

    /// Sets entry `i` to `s` when the transition is allowed; reports whether it was.
    pub fn record(&mut self, i: usize, s: Status) -> (r: bool)
        requires
            i < old(self)@.len(),
        ensures
            r == may_move(old(self)@[i as int], s),
            final(self)@ == if r {
                old(self)@.update(i as int, s)
            } else {
                old(self)@
            },
    {
        let cur = self.entries[i];
        let ok = match cur {
            Status::Pending => !matches!(s, Status::Pending),
            Status::InProgress => matches!(s, Status::Succeeded { .. } | Status::Failed(_) | Status::Skipped(_)),
            _ => false,
        };
        if ok {
            self.entries.set(i, s);
        }
        ok
    }

    /// Decides what happens to node `i` when its turn comes. `installed` says
    /// whether an earlier run left an install marker for it.
    pub fn begin(&mut self, i: usize, installed: bool, force: bool) -> (r: Start)
        requires
            i < old(self)@.len(),
        ensures
            r == start_of(old(self)@[i as int], installed, force),
            final(self)@ == old(self)@.update(
                i as int,
                status_after_start(old(self)@[i as int], installed, force),
            ),
    {
        match self.entries[i] {
            Status::Pending => {
                if installed && !force {
                    self.entries.set(i, Status::Skipped(SkipCause::AlreadyInstalled));
                    Start::AlreadyInstalled
                } else {
                    self.entries.set(i, Status::InProgress);
                    Start::Install
                }
            },
            _ => {
                proof {
                    assert(old(self)@.update(i as int, old(self)@[i as int]) =~= old(self)@);
                }
                Start::Skip
            },
        }
    }

    /// Node `i` was cloned and its formula ran, `failed_commands` of its
    /// commands failing.
    pub fn finish(&mut self, i: usize, failed_commands: usize)
        requires
            i < old(self)@.len(),
            old(self)@[i as int] == Status::InProgress,
        ensures
            final(self)@ == old(self)@.update(i as int, Status::Succeeded { failed_commands }),
    {
        self.entries.set(i, Status::Succeeded { failed_commands });
    }

    /// The clone of node `id` failed: it ends `Failed`, and every node still
    /// pending that needs it, directly or through others, ends `Skipped` with
    /// `id` as the cause. The dependents are found through the graph's reverse
    /// edges; nothing else changes.
    pub fn clone_failed(&mut self, g: &DependencyGraph, id: usize)
        requires
            g.wf(),
            old(self)@.len() == g.node_count(),
            id < g.node_count(),
            old(self)@[id as int] == Status::InProgress,
        ensures
            final(self)@.len() == old(self)@.len(),
            final(self)@[id as int] == Status::Failed(FailReason::CloneFailed),
            forall|x: int|
                0 <= x < g.node_count() && x != id ==> #[trigger] final(self)@[x] == if depends_on(
                    *g,
                    x,
                    id as int,
                ) && old(self)@[x] == Status::Pending {
                    Status::Skipped(SkipCause::FailedDependency { failed: id })
                } else {
                    old(self)@[x]
                },
    {
        let n = g.order.len();
        let ghost old_entries = self.entries@;
        self.entries.set(id, Status::Failed(FailReason::CloneFailed));
        let mut tainted: Vec<bool> = Vec::new();
        let mut z: usize = 0;
        while z < n
            invariant
                z <= n,
                tainted@.len() == z,
                forall|x: int| 0 <= x < z ==> tainted@[x] == (x == id),
            decreases n - z,
        {
            tainted.push(z == id);
            z = z + 1;
        }
        proof {
            assert forall|x: int| 0 <= x < id implies !depends_on(*g, x, id as int) by {
                if depends_on(*g, x, id as int) {
                    lemma_depends_not_below(*g, x, id as int);
                }
            }
        }
        let mut i: usize = id;
        while i < n
            invariant
                g.wf(),
                n == g.node_count(),
                id < n,
                id <= i <= n,
                tainted@.len() == n,
                self.entries@.len() == n,
                old_entries.len() == n,
                old_entries[id as int] == Status::InProgress,
                self.entries@[id as int] == Status::Failed(FailReason::CloneFailed),
                tainted@[id as int],
                forall|x: int| 0 <= x < i ==> #[trigger] tainted@[x] == depends_on(*g, x, id as int),
                forall|x: int| 0 <= x < id ==> !depends_on(*g, x, id as int),
                forall|x: int| i <= x < n && #[trigger] tainted@[x] ==> depends_on(*g, x, id as int),
                forall|x: int|
                    i <= x < n && x != id && (exists|k: int|
                        0 <= k < g.deps@[x]@.len() && #[trigger] g.dep(x, k) < i && depends_on(
                            *g,
                            g.dep(x, k),
                            id as int,
                        )) ==> tainted@[x],
                forall|x: int|
                    0 <= x < n && x != id ==> #[trigger] self.entries@[x] == if tainted@[x]
                        && old_entries[x] == Status::Pending {
                        Status::Skipped(SkipCause::FailedDependency { failed: id })
                    } else {
                        old_entries[x]
                    },
            decreases n - i,
        {
            proof {
                if i != id {
                    if depends_on(*g, i as int, id as int) {
                        let k = choose|k: int|
                            0 <= k < g.deps@[i as int]@.len() && 0 <= #[trigger] g.dep(i as int, k) < i
                                && depends_on(*g, g.dep(i as int, k), id as int);
                        assert(g.dep(i as int, k) < i);
                    }
                }
            }
            assert(tainted@[i as int] == depends_on(*g, i as int, id as int));
            if tainted[i] {
                let ds = &g.dependents[i];
                let mut q: usize = 0;
                while q < ds.len()
                    invariant
                        g.wf(),
                        n == g.node_count(),
                        id < n,
                        id <= i < n,
                        *ds == g.dependents@[i as int],
                        q <= ds@.len(),
                        tainted@.len() == n,
                        self.entries@.len() == n,
                        old_entries.len() == n,
                        self.entries@[id as int] == Status::Failed(FailReason::CloneFailed),
                        tainted@[id as int],
                        tainted@[i as int],
                        depends_on(*g, i as int, id as int),
                        forall|x: int| 0 <= x <= i ==> #[trigger] tainted@[x] == depends_on(*g, x, id as int),
                        forall|x: int| i < x < n && #[trigger] tainted@[x] ==> depends_on(*g, x, id as int),
                        forall|x: int|
                            i < x < n && x != id && (exists|k: int|
                                0 <= k < g.deps@[x]@.len() && #[trigger] g.dep(x, k) < i && depends_on(
                                    *g,
                                    g.dep(x, k),
                                    id as int,
                                )) ==> tainted@[x],
                        forall|r: int| 0 <= r < q ==> tainted@[#[trigger] ds@[r] as int],
                        forall|x: int|
                            0 <= x < n && x != id ==> #[trigger] self.entries@[x] == if tainted@[x]
                                && old_entries[x] == Status::Pending {
                                Status::Skipped(SkipCause::FailedDependency { failed: id })
                            } else {
                                old_entries[x]
                            },
                    decreases ds.len() - q,
                {
                    let x = ds[q];
                    proof {
                        assert(g.dependents@[i as int]@[q as int] == x);
                        assert(g.dependents@[i as int]@.contains(x));
                        assert(g.deps@[x as int]@.contains(i));
                        let k = choose|k: int| 0 <= k < g.deps@[x as int]@.len() && g.deps@[x as int]@[k] == i;
                        assert(g.dep(x as int, k) == i);
                        assert(depends_on(*g, x as int, id as int));
                    }
                    if !tainted[x] {
                        tainted.set(x, true);
                        if self.entries[x] == Status::Pending {
                            self.entries.set(x, Status::Skipped(SkipCause::FailedDependency { failed: id }));
                        }
                    }
                    q = q + 1;
                }
                proof {
                    assert forall|x: int|
                        i + 1 <= x < n && x != id && (exists|k: int|
                            0 <= k < g.deps@[x]@.len() && #[trigger] g.dep(x, k) < i + 1 && depends_on(
                                *g,
                                g.dep(x, k),
                                id as int,
                            )) implies tainted@[x] by {
                        let k = choose|k: int|
                            0 <= k < g.deps@[x]@.len() && #[trigger] g.dep(x, k) < i + 1 && depends_on(
                                *g,
                                g.dep(x, k),
                                id as int,
                            );
                        if g.dep(x, k) == i {
                            assert(g.deps@[x]@[k] == i);
                            assert(g.deps@[x]@.contains(i));
                            assert(g.dependents@[i as int]@.contains(x as usize));
                            let r = choose|r: int| 0 <= r < ds@.len() && ds@[r] == x as usize;
                            assert(tainted@[ds@[r] as int]);
                        }
                    }
                }
            } else {
                proof {
                    assert forall|x: int|
                        i + 1 <= x < n && x != id && (exists|k: int|
                            0 <= k < g.deps@[x]@.len() && #[trigger] g.dep(x, k) < i + 1 && depends_on(
                                *g,
                                g.dep(x, k),
                                id as int,
                            )) implies tainted@[x] by {
                        let k = choose|k: int|
                            0 <= k < g.deps@[x]@.len() && #[trigger] g.dep(x, k) < i + 1 && depends_on(
                                *g,
                                g.dep(x, k),
                                id as int,
                            );
                        assert(g.dep(x, k) != i);
                    }
                }
            }
            i = i + 1;
        }
    }

    /// Whether every package of the run is installed: succeeded now or by an
    /// earlier run.
    pub fn all_installed(&self) -> (r: bool)
        ensures
            r == forall|i: int|
                0 <= i < self@.len() ==> (#[trigger] self@[i] is Succeeded || self@[i]
                    == Status::Skipped(SkipCause::AlreadyInstalled)),
    {
        let mut i: usize = 0;
        while i < self.entries.len()
            invariant
                i <= self@.len(),
                self@ == self.entries@,
                forall|j: int|
                    0 <= j < i ==> (#[trigger] self@[j] is Succeeded || self@[j]
                        == Status::Skipped(SkipCause::AlreadyInstalled)),
            decreases self.entries.len() - i,
        {
            match self.entries[i] {
                Status::Succeeded { .. } => {},
                Status::Skipped(SkipCause::AlreadyInstalled) => {},
                _ => {
                    return false;
                },
            }
            i = i + 1;
        }
        true
    }

    /// How many entries have succeeded, failed and been skipped.
    pub fn summary(&self) -> (r: RunSummary)
        ensures
            r.succeeded == count_where(self@, |s: Status| s is Succeeded),
            r.failed == count_where(self@, |s: Status| s is Failed),
            r.skipped == count_where(self@, |s: Status| s is Skipped),
    {
        let mut r = RunSummary { succeeded: 0, failed: 0, skipped: 0 };
        let mut i: usize = 0;
        while i < self.entries.len()
            invariant
                i <= self@.len(),
                self@ == self.entries@,
                r.succeeded == count_where(self@.subrange(0, i as int), |s: Status| s is Succeeded),
                r.failed == count_where(self@.subrange(0, i as int), |s: Status| s is Failed),
                r.skipped == count_where(self@.subrange(0, i as int), |s: Status| s is Skipped),
            decreases self.entries.len() - i,
        {
            let ghost pre = self@.subrange(0, i as int);
            let ghost post = self@.subrange(0, i + 1);
            proof {
                assert(post.drop_last() =~= pre);
                lemma_count_bound(pre, |s: Status| s is Succeeded);
                lemma_count_bound(pre, |s: Status| s is Failed);
                lemma_count_bound(pre, |s: Status| s is Skipped);
            }
            match self.entries[i] {
                Status::Succeeded { .. } => {
                    r.succeeded = r.succeeded + 1;
                },
                Status::Failed(_) => {
                    r.failed = r.failed + 1;
                },
                Status::Skipped(_) => {
                    r.skipped = r.skipped + 1;
                },
                _ => {},
            }
            i = i + 1;
        }
        proof {
            assert(self@.subrange(0, self@.len() as int) =~= self@);
        }
        r
    }
}

/// A second run over packages that all carry an install marker, without
/// `force`, clones nothing: every entry of its fresh ledger is settled as
/// skipped, already installed, when its turn comes.
pub proof fn lemma_second_run_installs_nothing(fresh: Seq<Status>, i: int)
    requires
        0 <= i < fresh.len(),
        forall|j: int| 0 <= j < fresh.len() ==> fresh[j] == Status::Pending,
    ensures
        start_of(fresh[i], true, false) == Start::AlreadyInstalled,
        status_after_start(fresh[i], true, false) == Status::Skipped(SkipCause::AlreadyInstalled),
{
}

/// A settled entry is never moved again, whatever `begin` is told.
pub proof fn lemma_terminal_entries_stay(s: Status, t: Status, installed: bool, force: bool)
    requires
        is_terminal(s),
    ensures
        !may_move(s, t),
        start_of(s, installed, force) == Start::Skip,
        status_after_start(s, installed, force) == s,
{
}

} // verus!
