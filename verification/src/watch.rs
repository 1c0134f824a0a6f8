//! The watch controller's decisions: which tasks a set of changed files
//! re-dirties (the affected transitive closure), and a debounce state
//! machine that coalesces change bursts and queues a follow-up pass while
//! a run is in flight, instead of preempting it.

use vstd::prelude::*;
use vstd::pervasive::VecAdditionalExecFns;
use crate::graph::Graph;

verus! {

/// Whether a changed file is among task `i`'s resolved inputs.
pub open spec fn touches(g: Graph, changed: Seq<bool>, i: int) -> bool {
    exists|c: int|
        0 <= c < g.input_files@[i]@.len() && changed[g.input_files@[i]@[c] as int]
}

/// The defining equation of the affected set: a task must re-run exactly
/// when one of its inputs changed or a task it depends on must re-run.
pub open spec fn affected_eq(g: Graph, changed: Seq<bool>, aff: Seq<bool>, i: int) -> bool {
    aff[i] == (touches(g, changed, i) || exists|k: int|
        0 <= k < g.depends_on@[i]@.len() && aff[g.depends_on@[i]@[k] as int])
}

/// Computes the affected set for a batch of file changes: exactly the
/// tasks whose inputs changed, plus their transitive consumers.
#[verifier::loop_isolation(false)]
#[verifier::rlimit(60)]
pub fn affected(g: &Graph, changed: &Vec<bool>) -> (aff: Vec<bool>)
    requires
        g.wf(),
        changed@.len() == g.files@.len(),
    ensures
        aff@.len() == g.n(),
        forall|i: int| 0 <= i < g.n() ==> affected_eq(*g, changed@, aff@, i),
{
    let n = g.defs.len();
    let mut aff: Vec<bool> = Vec::new();
    let mut z: usize = 0;
    while z < n
        invariant
            z <= n,
            aff@.len() == z,
            forall|x: int| 0 <= x < z ==> aff@[x] == false,
        decreases n - z,
    {
        aff.push(false);
        z += 1;
    }
    let mut p: usize = 0;
    while p < n
        invariant
            p <= n,
            aff@.len() == n,
            forall|q: int| 0 <= q < p ==> affected_eq(*g, changed@, aff@, g.order@[q] as int),
            forall|q: int| p <= q < n ==> aff@[g.order@[q] as int] == false,
        decreases n - p,
    {
        let i = g.order[p];
        let cnum = g.input_files[i].len();
        let mut hit = false;
        let mut c: usize = 0;
        while c < cnum
            invariant
                c <= cnum,
                p < n,
                i == g.order@[p as int],
                cnum == g.input_files@[i as int]@.len(),
                hit ==> touches(*g, changed@, i as int),
                !hit ==> forall|q: int|
                    0 <= q < c ==> !changed@[g.input_files@[i as int]@[q] as int],
            decreases cnum - c,
        {
            if !hit {
                if changed[g.input_files[i][c]] {
                    proof {
                        assert(changed@[g.input_files@[i as int]@[c as int] as int]);
                    }
                    hit = true;
                }
            }
            c += 1;
        }
        let dnum = g.depends_on[i].len();
        let mut k: usize = 0;
        while k < dnum
            invariant
                k <= dnum,
                p < n,
                i == g.order@[p as int],
                dnum == g.depends_on@[i as int]@.len(),
                aff@.len() == n,
                hit ==> touches(*g, changed@, i as int) || exists|w: int|
                    0 <= w < dnum && aff@[g.depends_on@[i as int]@[w] as int],
                !hit ==> !touches(*g, changed@, i as int) && forall|w: int|
                    0 <= w < k ==> !aff@[g.depends_on@[i as int]@[w] as int],
            decreases dnum - k,
        {
            if !hit {
                if aff[g.depends_on[i][k]] {
                    hit = true;
                }
            }
            k += 1;
        }
        let ghost pre = aff@;
        aff.set(i, hit);
        proof {
            assert(g.rank@[i as int] == p as int);
            assert forall|q: int| 0 <= q < p + 1 implies affected_eq(
                *g,
                changed@,
                aff@,
                g.order@[q] as int,
            ) by {
                let x = g.order@[q] as int;
                let row = g.depends_on@[x]@;
                assert((exists|w: int| 0 <= w < row.len() && aff@[row[w] as int]) == (exists|w: int|
                    0 <= w < row.len() && pre[row[w] as int])) by {
                    if exists|w: int| 0 <= w < row.len() && aff@[row[w] as int] {
                        let w = choose|w: int| 0 <= w < row.len() && aff@[row[w] as int];
                        assert(g.rank@[row[w] as int] < g.rank@[x]);
                        assert(row[w] != i);
                        assert(pre[row[w] as int]);
                    }
                    if exists|w: int| 0 <= w < row.len() && pre[row[w] as int] {
                        let w = choose|w: int| 0 <= w < row.len() && pre[row[w] as int];
                        assert(g.rank@[row[w] as int] < g.rank@[x]);
                        assert(row[w] != i);
                        assert(aff@[row[w] as int]);
                    }
                }
                if q == p {
                    assert(x == i as int);
                    assert(aff@[x] == hit);
                } else {
                    assert(g.rank@[x] == q);
                    assert(x != i as int);
                    assert(aff@[x] == pre[x]);
                }
            }
        }
        p += 1;
    }
    proof {
        assert forall|i: int| 0 <= i < g.n() implies affected_eq(*g, changed@, aff@, i) by {
            assert(g.order@[g.rank@[i] as int] == i as usize);
        }
    }
    aff
}

/// A task with no changed input anywhere in its transitive dependencies
/// is unaffected, by induction over the rank.
proof fn lemma_unaffected_task(g: Graph, changed: Seq<bool>, aff: Seq<bool>, i: int)
    requires
        g.wf(),
        aff.len() == g.n(),
        forall|x: int| 0 <= x < g.n() ==> affected_eq(g, changed, aff, x),
        forall|x: int| 0 <= x < g.n() ==> !touches(g, changed, x),
        0 <= i < g.n(),
    ensures
        !aff[i],
    decreases g.rank@[i],
{
    assert(affected_eq(g, changed, aff, i));
    if aff[i] {
        let k = choose|k: int|
            0 <= k < g.depends_on@[i]@.len() && aff[g.depends_on@[i]@[k] as int];
        let w = g.depends_on@[i]@[k] as int;
        assert(g.rank@[w] < g.rank@[i]);
        lemma_unaffected_task(g, changed, aff, w);
        assert(false);
    }
}

/// A change to files that are inputs of no task re-dirties nothing: the
/// watch loop performs no re-execution for it.
pub proof fn lemma_irrelevant_change(g: Graph, changed: Seq<bool>, aff: Seq<bool>)
    requires
        g.wf(),
        aff.len() == g.n(),
        forall|x: int| 0 <= x < g.n() ==> affected_eq(g, changed, aff, x),
        forall|x: int| 0 <= x < g.n() ==> !touches(g, changed, x),
    ensures
        forall|i: int| 0 <= i < g.n() ==> !aff[i],
{
    assert forall|i: int| 0 <= i < g.n() implies !aff[i] by {
        lemma_unaffected_task(g, changed, aff, i);
    }
}

/// The debounce state between filesystem events and scheduling passes:
/// which files changed since the last emitted batch, when the last event
/// arrived, and whether a pass is in flight.
pub struct WatchState {
    pub changed: Vec<bool>,
    pub any: bool,
    pub last_event: u64,
    pub running: bool,
}

impl WatchState {
    /// A quiet watcher over `nfiles` file nodes.
    #[verifier::loop_isolation(false)]
    pub fn new(nfiles: usize) -> (w: WatchState)
        ensures
            w.changed@.len() == nfiles,
            forall|f: int| 0 <= f < nfiles ==> !w.changed@[f],
            !w.any,
            !w.running,
    {
        let mut changed: Vec<bool> = Vec::new();
        let mut z: usize = 0;
        while z < nfiles
            invariant
                z <= nfiles,
                changed@.len() == z,
                forall|f: int| 0 <= f < z ==> !changed@[f],
            decreases nfiles - z,
        {
            changed.push(false);
            z += 1;
        }
        WatchState { changed, any: false, last_event: 0, running: false }
    }

    /// Records one change notification; the batch under collection now
    /// holds this file too, and the quiet window restarts at `now`.
    pub fn on_change(&mut self, f: usize, now: u64)
        requires
            (f as int) < old(self).changed@.len(),
        ensures
            final(self).changed@ == old(self).changed@.update(f as int, true),
            final(self).any,
            final(self).last_event == now,
            final(self).running == old(self).running,
    {
        self.changed.set(f, true);
        self.any = true;
        self.last_event = now;
    }

    /// Emits the collected batch once the quiet window has passed and no
    /// run is in flight; otherwise changes nothing. The emitted batch is
    /// exactly the files changed since the last batch, and collection
    /// restarts empty with the run marked in flight.
    #[verifier::loop_isolation(false)]
    pub fn poll(&mut self, now: u64, window: u64) -> (r: Option<Vec<bool>>)
        ensures
            (match r {
                Some(batch) => {
                    &&& old(self).any
                    &&& !old(self).running
                    &&& now >= old(self).last_event
                    &&& now - old(self).last_event >= window
                    &&& batch@ == old(self).changed@
                    &&& final(self).changed@.len() == old(self).changed@.len()
                    &&& forall|f: int| 0 <= f < final(self).changed@.len() ==> !final(self).changed@[f]
                    &&& !final(self).any
                    &&& final(self).running
                    &&& final(self).last_event == old(self).last_event
                },
                None => {
                    &&& !(old(self).any && !old(self).running && now >= old(self).last_event && now
                        - old(self).last_event >= window)
                    &&& *final(self) == *old(self)
                },
            }),
    {
        if self.any && !self.running && now >= self.last_event && now - self.last_event >= window {
            let n = self.changed.len();
            let mut fresh: Vec<bool> = Vec::new();
            let mut z: usize = 0;
            while z < n
                invariant
                    z <= n,
                    fresh@.len() == z,
                    forall|f: int| 0 <= f < z ==> !fresh@[f],
                decreases n - z,
            {
                fresh.push(false);
                z += 1;
            }
            let mut batch = fresh;
            core::mem::swap(&mut batch, &mut self.changed);
            self.any = false;
            self.running = true;
            Some(batch)
        } else {
            None
        }
    }

    /// Marks the in-flight pass finished; a batch collected meanwhile
    /// becomes eligible at the next poll.
    pub fn finish(&mut self)
        ensures
            final(self).changed@ == old(self).changed@,
            final(self).any == old(self).any,
            final(self).last_event == old(self).last_event,
            !final(self).running,
    {
        self.running = false;
    }
}

} // verus!
