//! The scheduler: drives each dirty task through
//! `Pending -> Queued -> Running -> {Succeeded | Failed}`, short-circuits
//! clean tasks to `Skipped`, dispatches a task only when every dependency
//! is satisfied, and on a failure skips every dirty consumer, letting
//! independent branches run to completion.

use vstd::prelude::*;
use vstd::pervasive::VecAdditionalExecFns;
use crate::graph::Graph;
use crate::util::{count_val, lemma_count_lt};

verus! {

/// The run state of one task node.
#[derive(PartialEq, Eq, Structural, Clone, Copy, Debug)]
pub enum TaskState {
    Pending,
    Queued,
    Running,
    Succeeded,
    Failed,
    Skipped,
}

/// Whether dependency `j` no longer blocks its consumers: clean (so
/// skipped), or run to success.
pub open spec fn dep_ok(states: Seq<TaskState>, dirty: Seq<bool>, j: int) -> bool {
    !dirty[j] || states[j] == TaskState::Succeeded
}

/// Whether every dependency of task `i` is satisfied.
pub open spec fn deps_ok(g: Graph, states: Seq<TaskState>, dirty: Seq<bool>, i: int) -> bool {
    forall|k: int|
        0 <= k < g.depends_on@[i]@.len() ==> dep_ok(states, dirty, g.depends_on@[i]@[k] as int)
}

/// Whether dependency `j` is tainted: it was to run but failed, or was
/// itself skipped on account of a failure upstream.
pub open spec fn dep_tainted(states: Seq<TaskState>, dirty: Seq<bool>, j: int) -> bool {
    dirty[j] && (states[j] == TaskState::Failed || states[j] == TaskState::Skipped)
}

/// Whether no dependency of task `i` is tainted.
pub open spec fn no_tainted_dep(g: Graph, states: Seq<TaskState>, dirty: Seq<bool>, i: int) -> bool {
    forall|k: int|
        0 <= k < g.depends_on@[i]@.len() ==> !dep_tainted(states, dirty, g.depends_on@[i]@[k] as int)
}

/// The core invariant of a scheduling pass: clean tasks are skipped; a
/// task is queued, running or finished only when dirty with every
/// dependency satisfied; a dirty task is skipped only on account of a
/// tainted dependency; only dirty tasks are pending.
pub open spec fn plan_core(g: Graph, states: Seq<TaskState>, dirty: Seq<bool>) -> bool {
    &&& states.len() == g.n()
    &&& dirty.len() == g.n()
    &&& forall|i: int| 0 <= i < g.n() && !dirty[i] ==> states[i] == TaskState::Skipped
    &&& forall|i: int|
        0 <= i < g.n() && (states[i] == TaskState::Queued || states[i] == TaskState::Running
            || states[i] == TaskState::Succeeded || states[i] == TaskState::Failed) ==> dirty[i]
            && deps_ok(g, states, dirty, i)
    &&& forall|i: int|
        0 <= i < g.n() && states[i] == TaskState::Skipped && dirty[i] ==> exists|k: int|
            0 <= k < g.depends_on@[i]@.len() && dep_tainted(states, dirty, g.depends_on@[i]@[k] as int)
    &&& forall|i: int| 0 <= i < g.n() && states[i] == TaskState::Pending ==> dirty[i]
}

/// The full invariant: the core, and no pending task has a tainted
/// dependency — after a failure, every reachable consumer has already
/// been skipped, never left pending.
pub open spec fn plan_wf(g: Graph, states: Seq<TaskState>, dirty: Seq<bool>) -> bool {
    &&& plan_core(g, states, dirty)
    &&& forall|i: int|
        0 <= i < g.n() && states[i] == TaskState::Pending ==> no_tainted_dep(g, states, dirty, i)
}

/// One scheduling pass over the graph: the classification it was started
/// from and the current state of every task.
pub struct Plan {
    pub states: Vec<TaskState>,
    pub dirty: Vec<bool>,
}

impl Plan {
    /// Starts a pass: every dirty task is pending, every clean task is
    /// skipped at once.
    #[verifier::loop_isolation(false)]
    pub fn init(g: &Graph, dirty: Vec<bool>) -> (p: Plan)
        requires
            g.wf(),
            dirty@.len() == g.n(),
        ensures
            plan_wf(*g, p.states@, p.dirty@),
            p.dirty@ == dirty@,
            forall|i: int|
                0 <= i < g.n() ==> p.states@[i] == (if dirty@[i] {
                    TaskState::Pending
                } else {
                    TaskState::Skipped
                }),
    {
        let n = g.defs.len();
        let mut states: Vec<TaskState> = Vec::new();
        let mut i: usize = 0;
        while i < n
            invariant
                i <= n,
                states@.len() == i,
                forall|x: int|
                    0 <= x < i ==> states@[x] == (if dirty@[x] {
                        TaskState::Pending
                    } else {
                        TaskState::Skipped
                    }),
            decreases n - i,
        {
            if dirty[i] {
                states.push(TaskState::Pending);
            } else {
                states.push(TaskState::Skipped);
            }
            i += 1;
        }
        Plan { states, dirty }
    }

    /// Finds a dispatchable task: pending with every dependency
    /// satisfied. Yields nothing exactly when no task is dispatchable.
    #[verifier::loop_isolation(false)]
    pub fn next_ready(&self, g: &Graph) -> (r: Option<usize>)
        requires
            g.wf(),
            plan_core(*g, self.states@, self.dirty@),
        ensures
            (match r {
                Some(i) => (i as int) < g.n() && self.states@[i as int] == TaskState::Pending
                    && deps_ok(*g, self.states@, self.dirty@, i as int),
                None => forall|i: int|
                    0 <= i < g.n() ==> !(self.states@[i] == TaskState::Pending && deps_ok(
                        *g,
                        self.states@,
                        self.dirty@,
                        i,
                    )),
            }),
    {
        let n = g.defs.len();
        let mut i: usize = 0;
        while i < n
            invariant
                i <= n,
                forall|x: int|
                    0 <= x < i ==> !(self.states@[x] == TaskState::Pending && deps_ok(
                        *g,
                        self.states@,
                        self.dirty@,
                        x,
                    )),
            decreases n - i,
        {
            if self.states[i] == TaskState::Pending {
                let dnum = g.depends_on[i].len();
                let mut k: usize = 0;
                let mut blocked = false;
                while k < dnum
                    invariant
                        k <= dnum,
                        i < n,
                        dnum == g.depends_on@[i as int]@.len(),
                        !blocked ==> forall|q: int|
                            0 <= q < k ==> dep_ok(
                                self.states@,
                                self.dirty@,
                                g.depends_on@[i as int]@[q] as int,
                            ),
                        blocked ==> !deps_ok(*g, self.states@, self.dirty@, i as int),
                    decreases dnum - k,
                {
                    if !blocked {
                        let j = g.depends_on[i][k];
                        if self.dirty[j] && self.states[j] != TaskState::Succeeded {
                            proof {
                                assert(!dep_ok(
                                    self.states@,
                                    self.dirty@,
                                    g.depends_on@[i as int]@[k as int] as int,
                                ));
                            }
                            blocked = true;
                        }
                    }
                    k += 1;
                }
                if !blocked {
                    return Some(i);
                }
            }
            i += 1;
        }
        None
    }

    /// Moves a dispatchable task onto the queue.
    pub fn enqueue(&mut self, g: &Graph, i: usize)
        requires
            g.wf(),
            plan_wf(*g, old(self).states@, old(self).dirty@),
            (i as int) < g.n(),
            old(self).states@[i as int] == TaskState::Pending,
            deps_ok(*g, old(self).states@, old(self).dirty@, i as int),
        ensures
            plan_wf(*g, final(self).states@, final(self).dirty@),
            final(self).dirty@ == old(self).dirty@,
            final(self).states@ == old(self).states@.update(i as int, TaskState::Queued),
    {
        proof {
            lemma_state_step(*g, self.states@, self.dirty@, i as int, TaskState::Queued);
        }
        self.states.set(i, TaskState::Queued);
    }

    /// Hands a queued task to a worker.
    pub fn start(&mut self, g: &Graph, i: usize)
        requires
            g.wf(),
            plan_wf(*g, old(self).states@, old(self).dirty@),
            (i as int) < g.n(),
            old(self).states@[i as int] == TaskState::Queued,
        ensures
            plan_wf(*g, final(self).states@, final(self).dirty@),
            final(self).dirty@ == old(self).dirty@,
            final(self).states@ == old(self).states@.update(i as int, TaskState::Running),
    {
        proof {
            lemma_state_step(*g, self.states@, self.dirty@, i as int, TaskState::Running);
        }
        self.states.set(i, TaskState::Running);
    }

    /// Records a worker's outcome: success marks the task `Succeeded`;
    /// failure marks it `Failed` and then skips, in topological order,
    /// every pending task a tainted dependency reaches. No task outside
    /// the failure's reach changes.
    #[verifier::loop_isolation(false)]
    #[verifier::rlimit(100)]
    pub fn complete(&mut self, g: &Graph, i: usize, ok: bool)
        requires
            g.wf(),
            plan_wf(*g, old(self).states@, old(self).dirty@),
            (i as int) < g.n(),
            old(self).states@[i as int] == TaskState::Running,
        ensures
            plan_wf(*g, final(self).states@, final(self).dirty@),
            final(self).dirty@ == old(self).dirty@,
            final(self).states@.len() == old(self).states@.len(),
            final(self).states@[i as int] == (if ok {
                TaskState::Succeeded
            } else {
                TaskState::Failed
            }),
            forall|x: int|
                0 <= x < g.n() && x != i && old(self).states@[x] != TaskState::Pending
                    ==> final(self).states@[x] == old(self).states@[x],
            forall|x: int|
                0 <= x < g.n() && old(self).states@[x] == TaskState::Pending
                    ==> (final(self).states@[x] == TaskState::Pending || final(self).states@[x]
                        == TaskState::Skipped),
    {
        if ok {
            proof {
                lemma_state_step(*g, self.states@, self.dirty@, i as int, TaskState::Succeeded);
            }
            self.states.set(i, TaskState::Succeeded);
            return;
        }
        let ghost pre = self.states@;
        proof {
            lemma_fail_step(*g, self.states@, self.dirty@, i as int);
        }
        self.states.set(i, TaskState::Failed);
        let n = g.defs.len();
        let mut p: usize = 0;
        while p < n
            invariant
                p <= n,
                plan_core(*g, self.states@, self.dirty@),
                self.dirty@ == old(self).dirty@,
                self.states@.len() == n,
                self.states@[i as int] == TaskState::Failed,
                forall|x: int|
                    0 <= x < n && x != i && pre[x] != TaskState::Pending ==> self.states@[x]
                        == pre[x],
                forall|x: int|
                    0 <= x < n && pre[x] == TaskState::Pending ==> (self.states@[x]
                        == TaskState::Pending || self.states@[x] == TaskState::Skipped),
                forall|q: int|
                    0 <= q < p && self.states@[g.order@[q] as int] == TaskState::Pending
                        ==> no_tainted_dep(*g, self.states@, self.dirty@, g.order@[q] as int),
            decreases n - p,
        {
            let x = g.order[p];
            if self.states[x] == TaskState::Pending {
                let dnum = g.depends_on[x].len();
                let mut k: usize = 0;
                let mut tainted = false;
                while k < dnum
                    invariant
                        k <= dnum,
                        x == g.order@[p as int],
                        (x as int) < n,
                        dnum == g.depends_on@[x as int]@.len(),
                        self.states@.len() == n,
                        self.dirty@.len() == n,
                        !tainted ==> forall|q: int|
                            0 <= q < k ==> !dep_tainted(
                                self.states@,
                                self.dirty@,
                                g.depends_on@[x as int]@[q] as int,
                            ),
                        tainted ==> exists|q: int|
                            0 <= q < dnum && dep_tainted(
                                self.states@,
                                self.dirty@,
                                g.depends_on@[x as int]@[q] as int,
                            ),
                    decreases dnum - k,
                {
                    if !tainted {
                        let j = g.depends_on[x][k];
                        if self.dirty[j] && (self.states[j] == TaskState::Failed || self.states[j]
                            == TaskState::Skipped) {
                            proof {
                                assert(dep_tainted(
                                    self.states@,
                                    self.dirty@,
                                    g.depends_on@[x as int]@[k as int] as int,
                                ));
                            }
                            tainted = true;
                        }
                    }
                    k += 1;
                }
                if tainted {
                    let ghost before = self.states@;
                    proof {
                        lemma_skip_step(*g, before, self.dirty@, x, p as int);
                    }
                    self.states.set(x, TaskState::Skipped);
                } else {
                    proof {
                        assert(no_tainted_dep(*g, self.states@, self.dirty@, x as int));
                    }
                }
            }
            p += 1;
        }
        proof {
            assert forall|x: int|
                0 <= x < g.n() && self.states@[x] == TaskState::Pending implies no_tainted_dep(
                *g,
                self.states@,
                self.dirty@,
                x,
            ) by {
                assert(0 <= g.rank@[x] < g.n());
                assert(g.order@[g.rank@[x] as int] == x as usize);
            }
        }
    }

    /// Whether the pass succeeded overall: every task either succeeded or
    /// was skipped clean.
    #[verifier::loop_isolation(false)]
    pub fn result(&self, g: &Graph) -> (r: bool)
        requires
            g.wf(),
            self.states@.len() == g.n(),
            self.dirty@.len() == g.n(),
        ensures
            r == forall|i: int|
                0 <= i < g.n() ==> (self.states@[i] == TaskState::Succeeded || (self.states@[i]
                    == TaskState::Skipped && !self.dirty@[i])),
    {
        let n = g.defs.len();
        let mut i: usize = 0;
        while i < n
            invariant
                i <= n,
                forall|x: int|
                    0 <= x < i ==> (self.states@[x] == TaskState::Succeeded || (self.states@[x]
                        == TaskState::Skipped && !self.dirty@[x])),
            decreases n - i,
        {
            let good = self.states[i] == TaskState::Succeeded || (self.states[i]
                == TaskState::Skipped && !self.dirty[i]);
            if !good {
                return false;
            }
            i += 1;
        }
        true
    }
}

/// Setting a dirty, dependency-satisfied task queued, running or
/// succeeded preserves the full pass invariant.
proof fn lemma_state_step(g: Graph, states: Seq<TaskState>, dirty: Seq<bool>, i: int, st: TaskState)
    requires
        g.wf(),
        plan_wf(g, states, dirty),
        0 <= i < g.n(),
        states[i] == TaskState::Pending || states[i] == TaskState::Queued || states[i]
            == TaskState::Running,
        deps_ok(g, states, dirty, i),
        st == TaskState::Queued || st == TaskState::Running || st == TaskState::Succeeded,
    ensures
        plan_wf(g, states.update(i, st), dirty),
{
    let post = states.update(i, st);
    assert(dirty[i]);
    assert forall|x: int|
        0 <= x < g.n() && (post[x] == TaskState::Queued || post[x] == TaskState::Running || post[x]
            == TaskState::Succeeded || post[x] == TaskState::Failed) implies dirty[x] && deps_ok(
        g,
        post,
        dirty,
        x,
    ) by {
        let known = if x == i {
            deps_ok(g, states, dirty, i)
        } else {
            deps_ok(g, states, dirty, x)
        };
        assert(known);
        assert forall|k: int| 0 <= k < g.depends_on@[x]@.len() implies dep_ok(
            post,
            dirty,
            g.depends_on@[x]@[k] as int,
        ) by {
            let j = g.depends_on@[x]@[k] as int;
            assert(dep_ok(states, dirty, j));
            if j == i && dirty[i] {
                assert(states[i] == TaskState::Succeeded);
            }
        }
    }
    assert forall|x: int|
        0 <= x < g.n() && post[x] == TaskState::Skipped && dirty[x] implies exists|k: int|
        0 <= k < g.depends_on@[x]@.len() && dep_tainted(post, dirty, g.depends_on@[x]@[k] as int) by {
        assert(x != i);
        assert(states[x] == TaskState::Skipped);
        let k = choose|k: int|
            0 <= k < g.depends_on@[x]@.len() && dep_tainted(
                states,
                dirty,
                g.depends_on@[x]@[k] as int,
            );
        let j = g.depends_on@[x]@[k] as int;
        assert(j != i);
        assert(dep_tainted(post, dirty, j));
    }
    assert forall|x: int| 0 <= x < g.n() && post[x] == TaskState::Pending implies dirty[x]
        && no_tainted_dep(g, post, dirty, x) by {
        assert(x != i);
        assert(states[x] == TaskState::Pending);
        assert(no_tainted_dep(g, states, dirty, x));
        assert forall|k: int| 0 <= k < g.depends_on@[x]@.len() implies !dep_tainted(
            post,
            dirty,
            g.depends_on@[x]@[k] as int,
        ) by {
            let j = g.depends_on@[x]@[k] as int;
            assert(!dep_tainted(states, dirty, j));
        }
    }
}

/// Marking a running task failed preserves the core invariant: nothing
/// queued, running or finished can depend on it, since it had not yet
/// succeeded.
proof fn lemma_fail_step(g: Graph, states: Seq<TaskState>, dirty: Seq<bool>, i: int)
    requires
        g.wf(),
        plan_wf(g, states, dirty),
        0 <= i < g.n(),
        states[i] == TaskState::Running,
    ensures
        plan_core(g, states.update(i, TaskState::Failed), dirty),
{
    let post = states.update(i, TaskState::Failed);
    assert(dirty[i]);
    assert forall|x: int|
        0 <= x < g.n() && (post[x] == TaskState::Queued || post[x] == TaskState::Running || post[x]
            == TaskState::Succeeded || post[x] == TaskState::Failed) implies dirty[x] && deps_ok(
        g,
        post,
        dirty,
        x,
    ) by {
        if x == i {
            assert(deps_ok(g, states, dirty, i));
        }
        assert(deps_ok(g, states, dirty, x));
        assert forall|k: int| 0 <= k < g.depends_on@[x]@.len() implies dep_ok(
            post,
            dirty,
            g.depends_on@[x]@[k] as int,
        ) by {
            let j = g.depends_on@[x]@[k] as int;
            assert(dep_ok(states, dirty, j));
            if j == i && dirty[i] {
                assert(states[i] == TaskState::Succeeded);
            }
        }
    }
    assert forall|x: int|
        0 <= x < g.n() && post[x] == TaskState::Skipped && dirty[x] implies exists|k: int|
        0 <= k < g.depends_on@[x]@.len() && dep_tainted(post, dirty, g.depends_on@[x]@[k] as int) by {
        assert(x != i);
        assert(states[x] == TaskState::Skipped);
        let k = choose|k: int|
            0 <= k < g.depends_on@[x]@.len() && dep_tainted(
                states,
                dirty,
                g.depends_on@[x]@[k] as int,
            );
        let j = g.depends_on@[x]@[k] as int;
        assert(j != i);
        assert(dep_tainted(post, dirty, j));
    }
}

/// Skipping a pending task over a tainted dependency preserves the core
/// invariant, and pending tasks of smaller rank keep their untainted
/// dependencies: a task's dependencies all sit strictly earlier in the
/// order.
proof fn lemma_skip_step(g: Graph, states: Seq<TaskState>, dirty: Seq<bool>, x: usize, p: int)
    requires
        g.wf(),
        plan_core(g, states, dirty),
        (x as int) < g.n(),
        states[x as int] == TaskState::Pending,
        g.rank@[x as int] == p,
        exists|k: int|
            0 <= k < g.depends_on@[x as int]@.len() && dep_tainted(
                states,
                dirty,
                g.depends_on@[x as int]@[k] as int,
            ),
        forall|q: int|
            0 <= q < p && states[g.order@[q] as int] == TaskState::Pending ==> no_tainted_dep(
                g,
                states,
                dirty,
                g.order@[q] as int,
            ),
    ensures
        plan_core(g, states.update(x as int, TaskState::Skipped), dirty),
        forall|q: int|
            0 <= q <= p && states.update(x as int, TaskState::Skipped)[g.order@[q] as int]
                == TaskState::Pending ==> no_tainted_dep(
                g,
                states.update(x as int, TaskState::Skipped),
                dirty,
                g.order@[q] as int,
            ),
{
    let post = states.update(x as int, TaskState::Skipped);
    assert(dirty[x as int]);
    assert forall|i: int|
        0 <= i < g.n() && (post[i] == TaskState::Queued || post[i] == TaskState::Running || post[i]
            == TaskState::Succeeded || post[i] == TaskState::Failed) implies dirty[i] && deps_ok(
        g,
        post,
        dirty,
        i,
    ) by {
        assert(i != x);
        assert(dirty[i] && deps_ok(g, states, dirty, i));
        assert forall|k: int| 0 <= k < g.depends_on@[i]@.len() implies dep_ok(
            post,
            dirty,
            g.depends_on@[i]@[k] as int,
        ) by {
            let j = g.depends_on@[i]@[k] as int;
            assert(dep_ok(states, dirty, j));
            if j == x as int && dirty[x as int] {
                assert(states[x as int] == TaskState::Succeeded);
            }
        }
    }
    assert forall|i: int|
        0 <= i < g.n() && post[i] == TaskState::Skipped && dirty[i] implies exists|k: int|
        0 <= k < g.depends_on@[i]@.len() && dep_tainted(post, dirty, g.depends_on@[i]@[k] as int) by {
        if i == x as int {
            let k = choose|k: int|
                0 <= k < g.depends_on@[x as int]@.len() && dep_tainted(
                    states,
                    dirty,
                    g.depends_on@[x as int]@[k] as int,
                );
            assert(dep_tainted(post, dirty, g.depends_on@[x as int]@[k] as int));
        } else {
            assert(states[i] == TaskState::Skipped);
            let k = choose|k: int|
                0 <= k < g.depends_on@[i]@.len() && dep_tainted(
                    states,
                    dirty,
                    g.depends_on@[i]@[k] as int,
                );
            assert(dep_tainted(post, dirty, g.depends_on@[i]@[k] as int));
        }
    }
    assert forall|q: int|
        0 <= q <= p && post[g.order@[q] as int] == TaskState::Pending implies no_tainted_dep(
        g,
        post,
        dirty,
        g.order@[q] as int,
    ) by {
        let y = g.order@[q] as int;
        assert(g.order@[g.rank@[x as int] as int] == x);
        if q == p {
            assert(g.order@[q] == x);
            assert(post[y] == TaskState::Skipped);
            assert(false);
        }
        assert(q < p);
        assert(states[y] == TaskState::Pending);
        assert(no_tainted_dep(g, states, dirty, y));
        assert forall|k: int| 0 <= k < g.depends_on@[y]@.len() implies !dep_tainted(
            post,
            dirty,
            g.depends_on@[y]@[k] as int,
        ) by {
            let j = g.depends_on@[y]@[k] as int;
            assert(!dep_tainted(states, dirty, j));
            if j == x {
                assert(g.rank@[j] < g.rank@[y]);
                assert(g.rank@[y] == q);
            }
        }
    }
}

/// At quiescence every task is settled: pending would mean some
/// dependency neither succeeded nor was cleanly skipped, and by
/// induction over the rank that dependency would itself be pending and
/// dispatchable.
proof fn lemma_terminal_task(g: Graph, states: Seq<TaskState>, dirty: Seq<bool>, i: int)
    requires
        g.wf(),
        plan_wf(g, states, dirty),
        forall|x: int|
            0 <= x < g.n() ==> states[x] != TaskState::Queued && states[x] != TaskState::Running,
        forall|x: int|
            0 <= x < g.n() ==> !(states[x] == TaskState::Pending && deps_ok(g, states, dirty, x)),
        0 <= i < g.n(),
    ensures
        states[i] != TaskState::Pending,
    decreases g.rank@[i],
{
    if states[i] == TaskState::Pending {
        assert(!deps_ok(g, states, dirty, i));
        let k = choose|k: int|
            0 <= k < g.depends_on@[i]@.len() && !dep_ok(
                states,
                dirty,
                g.depends_on@[i]@[k] as int,
            );
        let j = g.depends_on@[i]@[k] as int;
        assert(dirty[j] && states[j] != TaskState::Succeeded);
        assert(no_tainted_dep(g, states, dirty, i));
        assert(!dep_tainted(states, dirty, j));
        assert(states[j] != TaskState::Failed && states[j] != TaskState::Skipped);
        assert(g.rank@[j] < g.rank@[i]);
        lemma_terminal_task(g, states, dirty, j);
        assert(false);
    }
}

/// Partial failure: a task with a tainted dependency — one that failed,
/// or was skipped on account of a failure — is itself skipped once the
/// pass is quiescent: it is never run, and never reported succeeded.
pub proof fn lemma_failed_dep_skips(g: Graph, states: Seq<TaskState>, dirty: Seq<bool>, i: int, k: int)
    requires
        g.wf(),
        plan_wf(g, states, dirty),
        forall|x: int|
            0 <= x < g.n() ==> states[x] != TaskState::Pending && states[x] != TaskState::Queued
                && states[x] != TaskState::Running,
        0 <= i < g.n(),
        0 <= k < g.depends_on@[i]@.len(),
        dep_tainted(states, dirty, g.depends_on@[i]@[k] as int),
    ensures
        states[i] == TaskState::Skipped,
{
    let j = g.depends_on@[i]@[k] as int;
    if states[i] == TaskState::Succeeded || states[i] == TaskState::Failed {
        assert(deps_ok(g, states, dirty, i));
        assert(dep_ok(states, dirty, j));
    }
}

/// The complement of partial failure: a dirty task none of whose
/// dependencies is tainted is actually run once the pass is quiescent —
/// it ends succeeded or failed, never skipped. An independent branch
/// thus always completes, whatever failed elsewhere.
pub proof fn lemma_untainted_runs(g: Graph, states: Seq<TaskState>, dirty: Seq<bool>, i: int)
    requires
        g.wf(),
        plan_wf(g, states, dirty),
        forall|x: int|
            0 <= x < g.n() ==> states[x] != TaskState::Pending && states[x] != TaskState::Queued
                && states[x] != TaskState::Running,
        0 <= i < g.n(),
        dirty[i],
        no_tainted_dep(g, states, dirty, i),
    ensures
        states[i] == TaskState::Succeeded || states[i] == TaskState::Failed,
{
    if states[i] == TaskState::Skipped {
        let k = choose|k: int|
            0 <= k < g.depends_on@[i]@.len() && dep_tainted(
                states,
                dirty,
                g.depends_on@[i]@[k] as int,
            );
        assert(!dep_tainted(states, dirty, g.depends_on@[i]@[k] as int));
    }
}

/// Runs one whole pass to quiescence with the given per-task outcomes:
/// dispatches every ready task in turn and records its outcome. On
/// return every task is settled, succeeded tasks had outcome `true`,
/// failed tasks had outcome `false`, and the invariant ties every
/// skipped dirty task to a tainted dependency.
#[verifier::loop_isolation(false)]
pub fn run_pass(g: &Graph, dirty: Vec<bool>, outcomes: &Vec<bool>) -> (p: Plan)
    requires
        g.wf(),
        dirty@.len() == g.n(),
        outcomes@.len() == g.n(),
    ensures
        plan_wf(*g, p.states@, p.dirty@),
        p.dirty@ == dirty@,
        forall|i: int|
            0 <= i < g.n() ==> p.states@[i] != TaskState::Pending && p.states@[i]
                != TaskState::Queued && p.states@[i] != TaskState::Running,
        forall|i: int|
            0 <= i < g.n() && p.states@[i] == TaskState::Succeeded ==> outcomes@[i],
        forall|i: int| 0 <= i < g.n() && p.states@[i] == TaskState::Failed ==> !outcomes@[i],
{
    let mut plan = Plan::init(g, dirty);
    let mut done = false;
    while !done
        invariant
            plan_wf(*g, plan.states@, plan.dirty@),
            plan.dirty@ == dirty@,
            plan.dirty@.len() == g.n(),
            plan.states@.len() == g.n(),
            forall|x: int|
                0 <= x < g.n() ==> plan.states@[x] != TaskState::Queued && plan.states@[x]
                    != TaskState::Running,
            forall|x: int|
                0 <= x < g.n() && plan.states@[x] == TaskState::Succeeded ==> outcomes@[x],
            forall|x: int| 0 <= x < g.n() && plan.states@[x] == TaskState::Failed ==> !outcomes@[x],
            done ==> forall|x: int|
                0 <= x < g.n() ==> !(plan.states@[x] == TaskState::Pending && deps_ok(
                    *g,
                    plan.states@,
                    plan.dirty@,
                    x,
                )),
        decreases count_val(plan.states@, TaskState::Pending), (if done {
            0int
        } else {
            1int
        }),
    {
        let ghost states0 = plan.states@;
        match plan.next_ready(g) {
            Option::None => {
                done = true;
            },
            Option::Some(i) => {
                plan.enqueue(g, i);
                plan.start(g, i);
                let ok = outcomes[i];
                plan.complete(g, i, ok);
                proof {
                    assert forall|x: int|
                        0 <= x < g.n() && plan.states@[x] == TaskState::Pending implies states0[x]
                        == TaskState::Pending by {}
                    assert(states0[i as int] == TaskState::Pending);
                    assert(plan.states@[i as int] != TaskState::Pending);
                    lemma_count_lt(states0, plan.states@, TaskState::Pending, i as int);
                }
            },
        }
    }
    proof {
        assert forall|i: int| 0 <= i < g.n() implies plan.states@[i] != TaskState::Pending by {
            lemma_terminal_task(*g, plan.states@, plan.dirty@, i);
        }
    }
    plan
}

} // verus!
