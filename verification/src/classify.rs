//! The invalidation engine: holds each task's last successful fingerprint
//! record against the current state of its resolved inputs, outputs and
//! action, and classifies every task Clean or Dirty, with dirtiness
//! propagating to every consumer.

use vstd::prelude::*;
use vstd::pervasive::VecAdditionalExecFns;
use crate::graph::Graph;

verus! {

/// One run cache record: the resolved input paths and their fingerprints,
/// and the action descriptor, as they were when the task last succeeded.
/// A record is valid only when every field still matches exactly.
pub struct CacheRecord {
    pub input_paths: Vec<String>,
    pub input_fps: Vec<u64>,
    pub action: String,
    pub engine: String,
}

/// Whether `rec` matches task `i`'s current resolved inputs and action,
/// field for field: same input paths in the same order, every input
/// present with the recorded fingerprint, same action descriptor.
pub open spec fn record_matches(g: Graph, i: int, rec: CacheRecord, fps: Seq<Option<u64>>) -> bool {
    let row = g.input_files@[i]@;
    &&& rec.input_paths@.len() == row.len()
    &&& rec.input_fps@.len() == row.len()
    &&& forall|c: int| 0 <= c < row.len() ==> rec.input_paths@[c]@ == g.files@[row[c] as int]@
    &&& forall|c: int| 0 <= c < row.len() ==> fps[row[c] as int] == Some(rec.input_fps@[c])
    &&& rec.action@ == g.defs@[i].action@
    &&& rec.engine@ == g.defs@[i].engine@
}

/// Whether every declared output file of task `i` currently exists (has a
/// fingerprint).
pub open spec fn outputs_present(g: Graph, i: int, fps: Seq<Option<u64>>) -> bool {
    forall|c: int|
        0 <= c < g.output_files@[i]@.len() ==> fps[g.output_files@[i]@[c] as int] is Some
}

/// Whether task `i` is dirty on its own account: forced, no cache record,
/// a stale or mismatched record, or a missing output.
pub open spec fn self_dirty(
    g: Graph,
    cache: Seq<Option<CacheRecord>>,
    fps: Seq<Option<u64>>,
    force: bool,
    i: int,
) -> bool {
    ||| force
    ||| match cache[i] {
        Option::None => true,
        Option::Some(rec) => !record_matches(g, i, rec, fps) || !outputs_present(g, i, fps),
    }
}

/// The defining equation of the classification: a task is dirty exactly
/// when it is dirty on its own account or some task it depends on is
/// dirty. The backward direction of this equation is the monotonic
/// propagation guarantee: a task is never clean while a dependency is
/// dirty.
pub open spec fn dirty_eq(
    g: Graph,
    cache: Seq<Option<CacheRecord>>,
    fps: Seq<Option<u64>>,
    force: bool,
    dirty: Seq<bool>,
    i: int,
) -> bool {
    dirty[i] == (self_dirty(g, cache, fps, force, i) || exists|k: int|
        0 <= k < g.depends_on@[i]@.len() && dirty[g.depends_on@[i]@[k] as int])
}

/// Decides `record_matches` on concrete values.
#[verifier::loop_isolation(false)]
fn record_matches_exec(g: &Graph, i: usize, rec: &CacheRecord, fps: &Vec<Option<u64>>) -> (r: bool)
    requires
        g.wf(),
        (i as int) < g.n(),
        fps@.len() == g.files@.len(),
    ensures
        r == record_matches(*g, i as int, *rec, fps@),
{
    let row_len = g.input_files[i].len();
    if rec.input_paths.len() != row_len || rec.input_fps.len() != row_len {
        return false;
    }
    if !rec.action.eq(&g.defs[i].action) || !rec.engine.eq(&g.defs[i].engine) {
        return false;
    }
    let mut c: usize = 0;
    while c < row_len
        invariant
            c <= row_len,
            row_len == g.input_files@[i as int]@.len(),
            rec.input_paths@.len() == row_len,
            rec.input_fps@.len() == row_len,
            forall|q: int|
                0 <= q < c ==> rec.input_paths@[q]@ == g.files@[g.input_files@[i as int]@[q] as int]@,
            forall|q: int|
                0 <= q < c ==> fps@[g.input_files@[i as int]@[q] as int] == Some(rec.input_fps@[q]),
        decreases row_len - c,
    {
        let f = g.input_files[i][c];
        if !rec.input_paths[c].eq(&g.files[f]) {
            return false;
        }
        match fps[f] {
            Option::Some(v) => {
                if v != rec.input_fps[c] {
                    return false;
                }
            },
            Option::None => {
                return false;
            },
        }
        c += 1;
    }
    true
}

/// Decides `outputs_present` on concrete values.
#[verifier::loop_isolation(false)]
fn outputs_present_exec(g: &Graph, i: usize, fps: &Vec<Option<u64>>) -> (r: bool)
    requires
        g.wf(),
        (i as int) < g.n(),
        fps@.len() == g.files@.len(),
    ensures
        r == outputs_present(*g, i as int, fps@),
{
    let num = g.output_files[i].len();
    let mut c: usize = 0;
    while c < num
        invariant
            c <= num,
            num == g.output_files@[i as int]@.len(),
            forall|q: int|
                0 <= q < c ==> fps@[g.output_files@[i as int]@[q] as int] is Some,
        decreases num - c,
    {
        proof {
            assert(crate::graph::outputs_ok(
                g.defs@[i as int],
                g.output_files@[i as int]@,
                g.files@,
            ));
        }
        let f = g.output_files[i][c];
        if fps[f].is_none() {
            return false;
        }
        c += 1;
    }
    true
}

/// Decides `self_dirty` on concrete values.
fn self_dirty_exec(
    g: &Graph,
    i: usize,
    cache: &Vec<Option<CacheRecord>>,
    fps: &Vec<Option<u64>>,
    force: bool,
) -> (r: bool)
    requires
        g.wf(),
        (i as int) < g.n(),
        cache@.len() == g.n(),
        fps@.len() == g.files@.len(),
    ensures
        r == self_dirty(*g, cache@, fps@, force, i as int),
{
    if force {
        return true;
    }
    match &cache[i] {
        Option::None => true,
        Option::Some(rec) => {
            !record_matches_exec(g, i, rec, fps) || !outputs_present_exec(g, i, fps)
        },
    }
}

/// Classifies every task Clean or Dirty: the result satisfies the
/// defining equation `dirty_eq` at every task, computed in one pass over
/// the topological order.
#[verifier::loop_isolation(false)]
#[verifier::rlimit(60)]
pub fn classify(
    g: &Graph,
    cache: &Vec<Option<CacheRecord>>,
    fps: &Vec<Option<u64>>,
    force: bool,
) -> (dirty: Vec<bool>)
    requires
        g.wf(),
        cache@.len() == g.n(),
        fps@.len() == g.files@.len(),
    ensures
        dirty@.len() == g.n(),
        forall|i: int| 0 <= i < g.n() ==> dirty_eq(*g, cache@, fps@, force, dirty@, i),
{
    let n = g.defs.len();
    let mut dirty: Vec<bool> = Vec::new();
    let mut z: usize = 0;
    while z < n
        invariant
            z <= n,
            dirty@.len() == z,
            forall|x: int| 0 <= x < z ==> dirty@[x] == false,
        decreases n - z,
    {
        dirty.push(false);
        z += 1;
    }
    let mut p: usize = 0;
    while p < n
        invariant
            p <= n,
            dirty@.len() == n,
            forall|q: int| 0 <= q < p ==> dirty_eq(*g, cache@, fps@, force, dirty@, g.order@[q] as int),
            forall|q: int| p <= q < n ==> dirty@[g.order@[q] as int] == false,
        decreases n - p,
    {
        let i = g.order[p];
        let own = self_dirty_exec(g, i, cache, fps, force);
        let mut hit = own;
        let dnum = g.depends_on[i].len();
        let mut k: usize = 0;
        while k < dnum
            invariant
                k <= dnum,
                p < n,
                i == g.order@[p as int],
                dnum == g.depends_on@[i as int]@.len(),
                dirty@.len() == n,
                hit ==> own || exists|w: int|
                    0 <= w < dnum && dirty@[g.depends_on@[i as int]@[w] as int],
                !hit ==> !own && forall|w: int|
                    0 <= w < k ==> !dirty@[g.depends_on@[i as int]@[w] as int],
            decreases dnum - k,
        {
            if !hit {
                if dirty[g.depends_on[i][k]] {
                    hit = true;
                }
            }
            k += 1;
        }
        let ghost pre = dirty@;
        dirty.set(i, hit);
        proof {
            assert(g.rank@[i as int] == p as int);
            assert forall|q: int| 0 <= q < p + 1 implies dirty_eq(
                *g,
                cache@,
                fps@,
                force,
                dirty@,
                g.order@[q] as int,
            ) by {
                let x = g.order@[q] as int;
                let row = g.depends_on@[x]@;
                assert((exists|w: int| 0 <= w < row.len() && dirty@[row[w] as int]) == (exists|w: int|
                    0 <= w < row.len() && pre[row[w] as int])) by {
                    if exists|w: int| 0 <= w < row.len() && dirty@[row[w] as int] {
                        let w = choose|w: int| 0 <= w < row.len() && dirty@[row[w] as int];
                        assert(g.rank@[row[w] as int] < g.rank@[x]);
                        assert(row[w] != i);
                        assert(pre[row[w] as int]);
                    }
                    if exists|w: int| 0 <= w < row.len() && pre[row[w] as int] {
                        let w = choose|w: int| 0 <= w < row.len() && pre[row[w] as int];
                        assert(g.rank@[row[w] as int] < g.rank@[x]);
                        assert(row[w] != i);
                        assert(dirty@[row[w] as int]);
                    }
                }
                if q == p {
                    assert(x == i as int);
                    assert(dirty@[x] == hit);
                } else {
                    assert(g.rank@[x] == q);
                    assert(x != i as int);
                    assert(dirty@[x] == pre[x]);
                }
            }
        }
        p += 1;
    }
    proof {
        assert forall|i: int| 0 <= i < g.n() implies dirty_eq(
            *g,
            cache@,
            fps@,
            force,
            dirty@,
            i,
        ) by {
            assert(g.order@[g.rank@[i] as int] == i as usize);
        }
    }
    dirty
}

/// Builds a fresh cache record for task `i` from the current fingerprints;
/// yields nothing when some resolved input is missing. A record built
/// here matches the state it was built from.
#[verifier::loop_isolation(false)]
pub fn make_record(g: &Graph, i: usize, fps: &Vec<Option<u64>>) -> (r: Option<CacheRecord>)
    requires
        g.wf(),
        (i as int) < g.n(),
        fps@.len() == g.files@.len(),
    ensures
        (match r {
            Option::Some(rec) => record_matches(*g, i as int, rec, fps@),
            Option::None => exists|c: int|
                0 <= c < g.input_files@[i as int]@.len() && fps@[g.input_files@[i as int]@[c] as int]
                    is None,
        }),
{
    let row_len = g.input_files[i].len();
    let mut paths: Vec<String> = Vec::new();
    let mut values: Vec<u64> = Vec::new();
    let mut c: usize = 0;
    while c < row_len
        invariant
            c <= row_len,
            row_len == g.input_files@[i as int]@.len(),
            paths@.len() == c,
            values@.len() == c,
            forall|q: int|
                0 <= q < c ==> paths@[q]@ == g.files@[g.input_files@[i as int]@[q] as int]@,
            forall|q: int|
                0 <= q < c ==> fps@[g.input_files@[i as int]@[q] as int] == Some(values@[q]),
        decreases row_len - c,
    {
        let f = g.input_files[i][c];
        match fps[f] {
            Option::Some(v) => {
                paths.push(g.files[f].clone());
                values.push(v);
            },
            Option::None => {
                return Option::None;
            },
        }
        c += 1;
    }
    Option::Some(
        CacheRecord {
            input_paths: paths,
            input_fps: values,
            action: g.defs[i].action.clone(),
            engine: g.defs[i].engine.clone(),
        },
    )
}

/// Monotonic dirtiness propagation: when a task depends on a dirty task,
/// any classification satisfying the defining equation marks it dirty
/// too, whatever its own fingerprint state.
pub proof fn lemma_dirty_propagates(
    g: Graph,
    cache: Seq<Option<CacheRecord>>,
    fps: Seq<Option<u64>>,
    force: bool,
    dirty: Seq<bool>,
    i: int,
    k: int,
)
    requires
        g.wf(),
        dirty.len() == g.n(),
        forall|x: int| 0 <= x < g.n() ==> dirty_eq(g, cache, fps, force, dirty, x),
        0 <= i < g.n(),
        0 <= k < g.depends_on@[i]@.len(),
        dirty[g.depends_on@[i]@[k] as int],
    ensures
        dirty[i],
{
    assert(dirty_eq(g, cache, fps, force, dirty, i));
}

/// A forced run marks every task dirty, whatever the cache holds.
pub proof fn lemma_force_all_dirty(
    g: Graph,
    cache: Seq<Option<CacheRecord>>,
    fps: Seq<Option<u64>>,
    dirty: Seq<bool>,
)
    requires
        g.wf(),
        dirty.len() == g.n(),
        forall|x: int| 0 <= x < g.n() ==> dirty_eq(g, cache, fps, true, dirty, x),
    ensures
        forall|i: int| 0 <= i < g.n() ==> dirty[i],
{
    assert forall|i: int| 0 <= i < g.n() implies dirty[i] by {
        assert(dirty_eq(g, cache, fps, true, dirty, i));
        assert(self_dirty(g, cache, fps, true, i));
    }
}

/// A single task is clean when nothing is dirty on its own account: its
/// dependencies have smaller rank and are clean by induction.
proof fn lemma_clean_task(
    g: Graph,
    cache: Seq<Option<CacheRecord>>,
    fps: Seq<Option<u64>>,
    dirty: Seq<bool>,
    i: int,
)
    requires
        g.wf(),
        dirty.len() == g.n(),
        forall|x: int| 0 <= x < g.n() ==> dirty_eq(g, cache, fps, false, dirty, x),
        forall|x: int| 0 <= x < g.n() ==> !self_dirty(g, cache, fps, false, x),
        0 <= i < g.n(),
    ensures
        !dirty[i],
    decreases g.rank@[i],
{
    assert(dirty_eq(g, cache, fps, false, dirty, i));
    if dirty[i] {
        let k = choose|k: int|
            0 <= k < g.depends_on@[i]@.len() && dirty[g.depends_on@[i]@[k] as int];
        let w = g.depends_on@[i]@[k] as int;
        assert(g.rank@[w] < g.rank@[i]);
        lemma_clean_task(g, cache, fps, dirty, w);
        assert(false);
    }
}

/// Idempotence of classification: when every task's record still matches
/// and every output is present — as after a fully successful pass that
/// refreshed the cache — an unforced classification marks every task
/// clean, so a second run performs no work.
pub proof fn lemma_all_clean(
    g: Graph,
    cache: Seq<Option<CacheRecord>>,
    fps: Seq<Option<u64>>,
    dirty: Seq<bool>,
)
    requires
        g.wf(),
        dirty.len() == g.n(),
        forall|x: int| 0 <= x < g.n() ==> dirty_eq(g, cache, fps, false, dirty, x),
        forall|x: int| 0 <= x < g.n() ==> !self_dirty(g, cache, fps, false, x),
    ensures
        forall|i: int| 0 <= i < g.n() ==> !dirty[i],
{
    assert forall|i: int| 0 <= i < g.n() implies !dirty[i] by {
        lemma_clean_task(g, cache, fps, dirty, i);
    }
}

/// After a fully successful pass: when every task holds a record built
/// from the current fingerprints and every output exists, an unforced
/// classification marks every task clean.
pub proof fn lemma_fresh_records_clean(
    g: Graph,
    cache: Seq<Option<CacheRecord>>,
    fps: Seq<Option<u64>>,
    dirty: Seq<bool>,
)
    requires
        g.wf(),
        cache.len() == g.n(),
        dirty.len() == g.n(),
        forall|x: int| 0 <= x < g.n() ==> dirty_eq(g, cache, fps, false, dirty, x),
        forall|x: int| #![trigger cache[x]]
            0 <= x < g.n() ==> (cache[x] matches Some(rec) && record_matches(g, x, rec, fps)),
        forall|x: int| #![trigger g.output_files@[x]]
            0 <= x < g.n() ==> outputs_present(g, x, fps),
    ensures
        forall|i: int| 0 <= i < g.n() ==> !dirty[i],
{
    assert forall|x: int| 0 <= x < g.n() implies !self_dirty(g, cache, fps, false, x) by {
        assert(cache[x] matches Some(rec) && record_matches(g, x, rec, fps));
    }
    lemma_all_clean(g, cache, fps, dirty);
}

} // verus!
