//! Graph construction: resolves dependency patterns into task edges and
//! file nodes, rejects duplicate producers and unmatched mandatory
//! dependencies, detects cycles, and emits a topological order that every
//! later pass (classification, scheduling, watching) walks.

use vstd::prelude::*;
use vstd::pervasive::VecAdditionalExecFns;
use crate::defs::{Dep, TaskDef, glob_matches, has_wildcard, glob_match, pattern_has_wildcard};
use crate::util::{count_val, lemma_count_update, lemma_count_none, lemma_count_all, lemma_count_lt, lemma_count_le_len};

verus! {

/// Whether the sequence holds the value.
pub open spec fn seq_has(s: Seq<usize>, v: usize) -> bool {
    exists|k: int| 0 <= k < s.len() && s[k] == v
}

/// Whether `t`'s target number `k` is a concrete path: in range and free
/// of wildcards.
pub open spec fn concrete_target(t: TaskDef, k: int) -> bool {
    0 <= k < t.targets.len() && !has_wildcard(t.targets[k]@)
}

/// Whether dependency pattern `d` resolves to an edge on task `t`: a task
/// reference matches `t`'s identifier exactly or any declared target by
/// pattern; a file pattern matches when it matches one of `t`'s concrete
/// targets, so that the consumer is ordered after the producer.
pub open spec fn dep_matches_task(d: Dep, t: TaskDef) -> bool {
    if d.is_task {
        d.pattern@ == t.id@ || exists|k: int|
            0 <= k < t.targets.len() && glob_matches(d.pattern@, t.targets[k]@)
    } else {
        exists|k: int| concrete_target(t, k) && glob_matches(d.pattern@, t.targets[k]@)
    }
}

/// Whether `path` is a genuine cycle of the edge lists `deps`: consecutive
/// entries are edges and the last entry has an edge back to the first.
pub open spec fn is_cycle(deps: Seq<Vec<usize>>, path: Seq<usize>) -> bool {
    &&& path.len() >= 1
    &&& forall|k: int| 0 <= k < path.len() ==> path[k] < deps.len()
    &&& forall|k: int| 0 <= k < path.len() - 1 ==> seq_has(deps[path[k] as int]@, path[k + 1])
    &&& seq_has(deps[path.last() as int]@, path[0])
}

/// Why a build was rejected. Each variant carries the witness: the full
/// cycle path, the doubly produced path with both producers, or the
/// mandatory dependency pattern that matched nothing.
#[derive(Debug)]
pub enum GraphError {
    Cycle { path: Vec<usize> },
    DuplicateProducer { target: String, first: usize, second: usize },
    UnresolvedDep { task: usize, dep: usize },
}

/// Decides `dep_matches_task` on concrete values.
#[verifier::loop_isolation(false)]
pub fn dep_matches(d: &Dep, t: &TaskDef) -> (r: bool)
    ensures
        r == dep_matches_task(*d, *t),
{
    if d.is_task && d.pattern == t.id {
        return true;
    }
    let num = t.targets.len();
    let mut k: usize = 0;
    while k < num
        invariant
            k <= num,
            num == t.targets.len(),
            d.is_task ==> forall|q: int| 0 <= q < k ==> !glob_matches(d.pattern@, t.targets[q]@),
            !d.is_task ==> forall|q: int|
                0 <= q < k ==> !(concrete_target(*t, q) && glob_matches(d.pattern@, t.targets[q]@)),
        decreases num - k,
    {
        if d.is_task {
            if glob_match(d.pattern.as_str(), t.targets[k].as_str()) {
                proof {
                    assert(glob_matches(d.pattern@, t.targets[k as int]@));
                }
                return true;
            }
        } else {
            if !pattern_has_wildcard(t.targets[k].as_str())
                && glob_match(d.pattern.as_str(), t.targets[k].as_str()) {
                proof {
                    assert(concrete_target(*t, k as int));
                    assert(glob_matches(d.pattern@, t.targets[k as int]@));
                }
                return true;
            }
        }
        k += 1;
    }
    false
}


/// Whether `a` has some dependency pattern resolving to task `b`.
pub open spec fn edge_pair(a: TaskDef, b: TaskDef) -> bool {
    exists|m: int| 0 <= m < a.deps.len() && dep_matches_task(a.deps[m], b)
}

/// Decides `edge_pair` on concrete values.
#[verifier::loop_isolation(false)]
pub fn edge_pair_exec(a: &TaskDef, b: &TaskDef) -> (r: bool)
    ensures
        r == edge_pair(*a, *b),
{
    let num = a.deps.len();
    let mut m: usize = 0;
    while m < num
        invariant
            m <= num,
            forall|q: int| 0 <= q < m ==> !dep_matches_task(a.deps[q], *b),
        decreases num - m,
    {
        if dep_matches(&a.deps[m], b) {
            return true;
        }
        m += 1;
    }
    false
}

/// Resolves every dependency pattern of every task into task edges:
/// the result lists, for each task, exactly the tasks one of its
/// dependency patterns resolves to.
#[verifier::loop_isolation(false)]
fn resolve_edges(defs: &Vec<TaskDef>) -> (deps: Vec<Vec<usize>>)
    ensures
        deps@.len() == defs@.len(),
        deps_wf(deps@),
        forall|i: int, j: usize|
            0 <= i < defs@.len() && (j as int) < defs@.len() ==> (seq_has(deps@[i]@, j)
                <==> edge_pair(defs@[i], defs@[j as int])),
{
    let n = defs.len();
    let mut deps: Vec<Vec<usize>> = Vec::new();
    let mut i: usize = 0;
    while i < n
        invariant
            i <= n,
            deps@.len() == i,
            forall|p: int, k: int|
                0 <= p < i && 0 <= k < deps@[p]@.len() ==> deps@[p]@[k] < n,
            forall|p: int, j: usize|
                0 <= p < i && (j as int) < n ==> (seq_has(deps@[p]@, j) <==> edge_pair(
                    defs@[p],
                    defs@[j as int],
                )),
        decreases n - i,
    {
        let mut row: Vec<usize> = Vec::new();
        let mut j: usize = 0;
        while j < n
            invariant
                j <= n,
                forall|k: int| 0 <= k < row@.len() ==> row@[k] < j,
                forall|q: usize|
                    (q as int) < j ==> (seq_has(row@, q) <==> edge_pair(defs@[i as int], defs@[q as int])),
            decreases n - j,
        {
            if edge_pair_exec(&defs[i], &defs[j]) {
                let ghost pre = row@;
                row.push(j);
                proof {
                    assert(row@.last() == j);
                    assert forall|q: usize| (q as int) < j + 1 implies (seq_has(row@, q)
                        <==> edge_pair(defs@[i as int], defs@[q as int])) by {
                        if q == j {
                            assert(row@[row@.len() - 1] == q);
                        } else {
                            assert(seq_has(row@, q) <==> seq_has(pre, q)) by {
                                if seq_has(row@, q) {
                                    let k = choose|k: int|
                                        0 <= k < row@.len() && row@[k] == q;
                                    assert(k < row@.len() - 1);
                                    assert(pre[k] == q);
                                }
                                if seq_has(pre, q) {
                                    let k = choose|k: int| 0 <= k < pre.len() && pre[k] == q;
                                    assert(row@[k] == q);
                                }
                            }
                        }
                    }
                }
            }
            j += 1;
        }
        deps.push(row);
        i += 1;
    }
    deps
}


/// Whether dependency pattern `d` matches anything at all: some task, or,
/// for a file pattern, some file of the current file universe.
pub open spec fn dep_matched_any(d: Dep, defs: Seq<TaskDef>, universe: Seq<String>) -> bool {
    ||| exists|j: int| 0 <= j < defs.len() && dep_matches_task(d, defs[j])
    ||| (!d.is_task && exists|u: int| 0 <= u < universe.len() && glob_matches(d.pattern@, universe[u]@))
}

/// Finds a mandatory dependency pattern that matches no task and no file,
/// if any task has one.
#[verifier::loop_isolation(false)]
fn find_unmatched_mandatory(defs: &Vec<TaskDef>, universe: &Vec<String>) -> (r: Option<(usize, usize)>)
    ensures
        (match r {
            Some((i, m)) => {
                &&& (i as int) < defs@.len()
                &&& (m as int) < defs@[i as int].deps.len()
                &&& defs@[i as int].deps[m as int].mandatory
                &&& !dep_matched_any(defs@[i as int].deps[m as int], defs@, universe@)
            },
            None => forall|i: int, m: int|
                0 <= i < defs@.len() && 0 <= m < defs@[i].deps.len() && defs@[i].deps[m].mandatory
                    ==> dep_matched_any(defs@[i].deps[m], defs@, universe@),
        }),
{
    let n = defs.len();
    let mut i: usize = 0;
    while i < n
        invariant
            i <= n,
            forall|p: int, m: int|
                0 <= p < i && 0 <= m < defs@[p].deps.len() && defs@[p].deps[m].mandatory
                    ==> dep_matched_any(defs@[p].deps[m], defs@, universe@),
        decreases n - i,
    {
        let dnum = defs[i].deps.len();
        let mut m: usize = 0;
        while m < dnum
            invariant
                m <= dnum,
                dnum == defs@[i as int].deps.len(),
                forall|q: int|
                    0 <= q < m && defs@[i as int].deps[q].mandatory ==> dep_matched_any(
                        defs@[i as int].deps[q],
                        defs@,
                        universe@,
                    ),
            decreases dnum - m,
        {
            if defs[i].deps[m].mandatory {
                let mut hit = false;
                let mut j: usize = 0;
                while j < n
                    invariant
                        j <= n,
                        hit ==> dep_matched_any(defs@[i as int].deps[m as int], defs@, universe@),
                        !hit ==> forall|q: int|
                            0 <= q < j ==> !dep_matches_task(defs@[i as int].deps[m as int], defs@[q]),
                    decreases n - j,
                {
                    if dep_matches(&defs[i].deps[m], &defs[j]) {
                        hit = true;
                    }
                    j += 1;
                }
                if !hit && !defs[i].deps[m].is_task {
                    let unum = universe.len();
                    let mut u: usize = 0;
                    while u < unum
                        invariant
                            u <= unum,
                            unum == universe@.len(),
                            hit ==> dep_matched_any(defs@[i as int].deps[m as int], defs@, universe@),
                            !hit ==> forall|q: int|
                                0 <= q < u ==> !glob_matches(
                                    defs@[i as int].deps[m as int].pattern@,
                                    universe@[q]@,
                                ),
                            !hit ==> forall|q: int|
                                0 <= q < n ==> !dep_matches_task(
                                    defs@[i as int].deps[m as int],
                                    defs@[q],
                                ),
                        decreases unum - u,
                    {
                        if glob_match(defs[i].deps[m].pattern.as_str(), universe[u].as_str()) {
                            hit = true;
                        }
                        u += 1;
                    }
                }
                if !hit {
                    return Some((i, m));
                }
            }
            m += 1;
        }
        i += 1;
    }
    None
}

/// No two distinct tasks declare the same concrete target.
pub open spec fn no_duplicate_producer(defs: Seq<TaskDef>) -> bool {
    forall|i1: int, i2: int, k1: int, k2: int|
        0 <= i1 < i2 < defs.len() && concrete_target(defs[i1], k1) && concrete_target(defs[i2], k2)
            ==> defs[i1].targets[k1]@ != defs[i2].targets[k2]@
}

/// Finds two distinct tasks that declare the same concrete target, if any.
#[verifier::loop_isolation(false)]
fn find_duplicate_producer(defs: &Vec<TaskDef>) -> (r: Option<(usize, usize, usize)>)
    ensures
        (match r {
            Some((i1, i2, k1)) => {
                &&& (i1 as int) < defs@.len()
                &&& (i2 as int) < defs@.len()
                &&& i1 != i2
                &&& concrete_target(defs@[i1 as int], k1 as int)
                &&& exists|k2: int|
                    concrete_target(defs@[i2 as int], k2) && defs@[i2 as int].targets[k2]@
                        == defs@[i1 as int].targets[k1 as int]@
            },
            None => no_duplicate_producer(defs@),
        }),
{
    let n = defs.len();
    let mut i1: usize = 0;
    while i1 < n
        invariant
            i1 <= n,
            forall|p1: int, p2: int, k1: int, k2: int|
                0 <= p1 < p2 < defs@.len() && p1 < i1 && concrete_target(defs@[p1], k1)
                    && concrete_target(defs@[p2], k2) ==> defs@[p1].targets[k1]@
                    != defs@[p2].targets[k2]@,
        decreases n - i1,
    {
        let tnum = defs[i1].targets.len();
        let mut k1: usize = 0;
        while k1 < tnum
            invariant
                k1 <= tnum,
                tnum == defs@[i1 as int].targets.len(),
                forall|p2: int, q1: int, k2: int|
                    i1 < p2 < defs@.len() && 0 <= q1 < k1 && concrete_target(defs@[i1 as int], q1)
                        && concrete_target(defs@[p2], k2) ==> defs@[i1 as int].targets[q1]@
                        != defs@[p2].targets[k2]@,
            decreases tnum - k1,
        {
            if !pattern_has_wildcard(defs[i1].targets[k1].as_str()) {
                let mut i2 = i1 + 1;
                while i2 < n
                    invariant
                        i1 < i2 <= n,
                        k1 < tnum,
                        tnum == defs@[i1 as int].targets.len(),
                        !has_wildcard(defs@[i1 as int].targets[k1 as int]@),
                        forall|p2: int, k2: int|
                            i1 < p2 < i2 && concrete_target(defs@[p2], k2) ==> defs@[i1 as int].targets[k1 as int]@
                                != defs@[p2].targets[k2]@,
                    decreases n - i2,
                {
                    let onum = defs[i2].targets.len();
                    let mut k2: usize = 0;
                    while k2 < onum
                        invariant
                            i1 < i2 < n,
                            k1 < tnum,
                            k2 <= onum,
                            tnum == defs@[i1 as int].targets.len(),
                            onum == defs@[i2 as int].targets.len(),
                            !has_wildcard(defs@[i1 as int].targets[k1 as int]@),
                            forall|q2: int|
                                0 <= q2 < k2 && concrete_target(defs@[i2 as int], q2)
                                    ==> defs@[i1 as int].targets[k1 as int]@ != defs@[i2 as int].targets[q2]@,
                        decreases onum - k2,
                    {
                        if !pattern_has_wildcard(defs[i2].targets[k2].as_str()) {
                            if defs[i1].targets[k1] == defs[i2].targets[k2] {
                                proof {
                                    assert(concrete_target(defs@[i2 as int], k2 as int));
                                    assert(defs@[i2 as int].targets[k2 as int]@
                                        == defs@[i1 as int].targets[k1 as int]@);
                                }
                                return Some((i1, i2, k1));
                            }
                        }
                        k2 += 1;
                    }
                    i2 += 1;
                }
            }
            k1 += 1;
        }
        i1 += 1;
    }
    None
}


/// File node paths are pairwise distinct.
pub open spec fn files_distinct(fs: Seq<String>) -> bool {
    forall|f1: int, f2: int| 0 <= f1 < f2 < fs.len() ==> fs[f1]@ != fs[f2]@
}

/// Whether some file node of the table holds exactly the path `p`.
pub open spec fn has_path(fs: Seq<String>, p: Seq<char>) -> bool {
    exists|f: int| 0 <= f < fs.len() && fs[f]@ == p
}

/// A path present in a table is present in any extension of it.
proof fn lemma_has_path_extend(fs1: Seq<String>, fs2: Seq<String>, p: Seq<char>)
    requires
        has_path(fs1, p),
        fs1.len() <= fs2.len(),
        forall|f: int| 0 <= f < fs1.len() ==> fs2[f] == fs1[f],
    ensures
        has_path(fs2, p),
{
    let f = choose|f: int| 0 <= f < fs1.len() && fs1[f]@ == p;
    assert(fs2[f] == fs1[f]);
    assert(0 <= f < fs2.len() && fs2[f]@ == p);
}

/// Returns the index of `path` in the file node table, adding a node if
/// none holds that path yet.
#[verifier::loop_isolation(false)]
fn intern(files: &mut Vec<String>, path: &String) -> (idx: usize)
    requires
        files_distinct(old(files)@),
    ensures
        files_distinct(final(files)@),
        old(files)@.len() <= final(files)@.len(),
        forall|f: int| 0 <= f < old(files)@.len() ==> final(files)@[f] == old(files)@[f],
        (idx as int) < final(files)@.len(),
        final(files)@[idx as int]@ == path@,
        has_path(final(files)@, path@),
        forall|f: int|
            old(files)@.len() <= f < final(files)@.len() ==> final(files)@[f]@ == path@,
{
    let n = files.len();
    let mut f: usize = 0;
    while f < n
        invariant
            f <= n,
            forall|q: int| 0 <= q < f ==> files@[q]@ != path@,
        decreases n - f,
    {
        if files[f].eq(path) {
            proof {
                assert(0 <= f < files@.len() && files@[f as int]@ == path@);
            }
            return f;
        }
        f += 1;
    }
    let cloned = path.clone();
    files.push(cloned);
    proof {
        assert(files@[n as int] == cloned);
        assert(0 <= n < files@.len() && files@[n as int]@ == path@);
    }
    n
}

/// Every entry of `out` names a file node holding one of the task's
/// concrete targets, and every concrete target has such an entry.
pub open spec fn outputs_ok(t: TaskDef, out: Seq<usize>, fs: Seq<String>) -> bool {
    &&& forall|c: int|
        0 <= c < out.len() ==> out[c] < fs.len() && exists|k: int|
            concrete_target(t, k) && fs[out[c] as int]@ == t.targets[k]@
    &&& forall|k: int|
        concrete_target(t, k) ==> exists|c: int|
            0 <= c < out.len() && out[c] < fs.len() && fs[out[c] as int]@ == t.targets[k]@
}

/// Every entry of `row` names a file node matched by one of the task's
/// file dependency patterns, and every file of the universe matched by
/// such a pattern has an entry holding its path.
pub open spec fn inputs_ok(t: TaskDef, row: Seq<usize>, fs: Seq<String>, universe: Seq<String>) -> bool {
    &&& forall|c: int|
        0 <= c < row.len() ==> row[c] < fs.len() && exists|m: int|
            0 <= m < t.deps.len() && !t.deps[m].is_task && glob_matches(
                t.deps[m].pattern@,
                fs[row[c] as int]@,
            )
    &&& forall|m: int, u: int|
        0 <= m < t.deps.len() && !t.deps[m].is_task && 0 <= u < universe.len() && glob_matches(
            t.deps[m].pattern@,
            universe[u]@,
        ) ==> exists|c: int|
            0 <= c < row.len() && row[c] < fs.len() && fs[row[c] as int]@ == universe[u]@
}

/// Builds the file node table: one node per distinct path among the
/// tasks' concrete targets and the file universe.
#[verifier::loop_isolation(false)]
fn intern_all(defs: &Vec<TaskDef>, universe: &Vec<String>) -> (files: Vec<String>)
    ensures
        files_distinct(files@),
        forall|i: int, k: int|
            0 <= i < defs@.len() && concrete_target(defs@[i], k) ==> has_path(
                files@,
                defs@[i].targets[k]@,
            ),
        forall|u: int|
            0 <= u < universe@.len() ==> has_path(files@, universe@[u]@),
{
    let n = defs.len();
    let mut files: Vec<String> = Vec::new();
    let mut i: usize = 0;
    while i < n
        invariant
            i <= n,
            files_distinct(files@),
            forall|p: int, k: int|
                0 <= p < i && concrete_target(defs@[p], k) ==> has_path(
                    files@,
                    defs@[p].targets[k]@,
                ),
        decreases n - i,
    {
        let tnum = defs[i].targets.len();
        let mut k: usize = 0;
        while k < tnum
            invariant
                k <= tnum,
                tnum == defs@[i as int].targets.len(),
                files_distinct(files@),
                forall|p: int, q: int|
                    0 <= p < i && concrete_target(defs@[p], q) ==> has_path(
                        files@,
                        defs@[p].targets[q]@,
                    ),
                forall|q: int|
                    0 <= q < k && concrete_target(defs@[i as int], q) ==> has_path(
                        files@,
                        defs@[i as int].targets[q]@,
                    ),
            decreases tnum - k,
        {
            if !pattern_has_wildcard(defs[i].targets[k].as_str()) {
                let ghost pre = files@;
                let idx = intern(&mut files, &defs[i].targets[k]);
                proof {
                    assert forall|p: int, q: int|
                        0 <= p < i && concrete_target(defs@[p], q) implies has_path(
                        files@,
                        defs@[p].targets[q]@,
                    ) by {
                        lemma_has_path_extend(pre, files@, defs@[p].targets[q]@);
                    }
                    assert forall|q: int|
                        0 <= q < k + 1 && concrete_target(defs@[i as int], q) implies has_path(
                        files@,
                        defs@[i as int].targets[q]@,
                    ) by {
                        if q < k {
                            lemma_has_path_extend(pre, files@, defs@[i as int].targets[q]@);
                        }
                    }
                }
            } else {
                proof {
                    assert(has_wildcard(defs@[i as int].targets[k as int]@));
                }
            }
            k += 1;
        }
        i += 1;
    }
    let unum = universe.len();
    let mut u: usize = 0;
    while u < unum
        invariant
            u <= unum,
            unum == universe@.len(),
            files_distinct(files@),
            forall|p: int, q: int|
                0 <= p < n && concrete_target(defs@[p], q) ==> has_path(
                    files@,
                    defs@[p].targets[q]@,
                ),
            forall|q: int| 0 <= q < u ==> has_path(files@, universe@[q]@),
        decreases unum - u,
    {
        let ghost pre = files@;
        let idx = intern(&mut files, &universe[u]);
        proof {
            assert forall|p: int, q: int|
                0 <= p < n && concrete_target(defs@[p], q) implies has_path(
                files@,
                defs@[p].targets[q]@,
            ) by {
                lemma_has_path_extend(pre, files@, defs@[p].targets[q]@);
            }
            assert forall|q: int| 0 <= q < u + 1 implies has_path(files@, universe@[q]@) by {
                if q < u {
                    lemma_has_path_extend(pre, files@, universe@[q]@);
                }
            }
        }
        u += 1;
    }
    files
}

/// Finds the file node holding `path`; the table must have one.
#[verifier::loop_isolation(false)]
fn find_file(files: &Vec<String>, path: &String) -> (idx: usize)
    requires
        has_path(files@, path@),
    ensures
        (idx as int) < files@.len(),
        files@[idx as int]@ == path@,
{
    let n = files.len();
    let mut f: usize = 0;
    while f < n
        invariant
            f <= n,
            forall|q: int| 0 <= q < f ==> files@[q]@ != path@,
        decreases n - f,
    {
        if files[f].eq(path) {
            return f;
        }
        f += 1;
    }
    proof {
        assert(false);
    }
    0
}

/// Resolves each task's concrete targets into output file nodes.
#[verifier::loop_isolation(false)]
fn resolve_outputs(defs: &Vec<TaskDef>, files: &Vec<String>) -> (outs: Vec<Vec<usize>>)
    requires
        forall|i: int, k: int|
            0 <= i < defs@.len() && concrete_target(defs@[i], k) ==> has_path(
                files@,
                defs@[i].targets[k]@,
            ),
    ensures
        outs@.len() == defs@.len(),
        forall|i: int| 0 <= i < defs@.len() ==> outputs_ok(defs@[i], outs@[i]@, files@),
{
    let n = defs.len();
    let mut outs: Vec<Vec<usize>> = Vec::new();
    let mut i: usize = 0;
    while i < n
        invariant
            i <= n,
            outs@.len() == i,
            forall|p: int| 0 <= p < i ==> outputs_ok(defs@[p], outs@[p]@, files@),
        decreases n - i,
    {
        let tnum = defs[i].targets.len();
        let mut row: Vec<usize> = Vec::new();
        let mut k: usize = 0;
        while k < tnum
            invariant
                k <= tnum,
                tnum == defs@[i as int].targets.len(),
                forall|c: int|
                    0 <= c < row@.len() ==> row@[c] < files@.len() && exists|q: int|
                        concrete_target(defs@[i as int], q) && files@[row@[c] as int]@
                            == defs@[i as int].targets[q]@,
                forall|q: int|
                    0 <= q < k && concrete_target(defs@[i as int], q) ==> exists|c: int|
                        0 <= c < row@.len() && row@[c] < files@.len() && files@[row@[c] as int]@
                            == defs@[i as int].targets[q]@,
            decreases tnum - k,
        {
            if !pattern_has_wildcard(defs[i].targets[k].as_str()) {
                let ghost pre = row@;
                proof {
                    assert(concrete_target(defs@[i as int], k as int));
                }
                let idx = find_file(files, &defs[i].targets[k]);
                row.push(idx);
                proof {
                    assert(row@[row@.len() - 1] == idx);
                    assert(concrete_target(defs@[i as int], k as int));
                    assert forall|q: int|
                        0 <= q < k + 1 && concrete_target(defs@[i as int], q) implies exists|c: int|
                        0 <= c < row@.len() && row@[c] < files@.len() && files@[row@[c] as int]@
                            == defs@[i as int].targets[q]@ by {
                        if q < k {
                            let c = choose|c: int|
                                0 <= c < pre.len() && pre[c] < files@.len() && files@[pre[c] as int]@
                                    == defs@[i as int].targets[q]@;
                            assert(row@[c] == pre[c]);
                        } else {
                            assert(row@[row@.len() - 1] < files@.len()
                                && files@[row@[row@.len() - 1] as int]@
                                == defs@[i as int].targets[q]@);
                        }
                    }
                }
            } else {
                proof {
                    assert(has_wildcard(defs@[i as int].targets[k as int]@));
                }
            }
            k += 1;
        }
        outs.push(row);
        i += 1;
    }
    outs
}

/// Resolves each task's file dependency patterns against the universe
/// into input file nodes.
#[verifier::loop_isolation(false)]
fn resolve_inputs(defs: &Vec<TaskDef>, universe: &Vec<String>, files: &Vec<String>) -> (ins: Vec<Vec<usize>>)
    requires
        forall|u: int| 0 <= u < universe@.len() ==> has_path(files@, universe@[u]@),
    ensures
        ins@.len() == defs@.len(),
        forall|i: int| 0 <= i < defs@.len() ==> inputs_ok(defs@[i], ins@[i]@, files@, universe@),
{
    let n = defs.len();
    let mut ins: Vec<Vec<usize>> = Vec::new();
    let mut i: usize = 0;
    while i < n
        invariant
            i <= n,
            ins@.len() == i,
            forall|p: int| 0 <= p < i ==> inputs_ok(defs@[p], ins@[p]@, files@, universe@),
        decreases n - i,
    {
        let dnum = defs[i].deps.len();
        let mut row: Vec<usize> = Vec::new();
        let mut m: usize = 0;
        while m < dnum
            invariant
                m <= dnum,
                dnum == defs@[i as int].deps.len(),
                forall|c: int|
                    0 <= c < row@.len() ==> row@[c] < files@.len() && exists|q: int|
                        0 <= q < dnum && !defs@[i as int].deps[q].is_task && glob_matches(
                            defs@[i as int].deps[q].pattern@,
                            files@[row@[c] as int]@,
                        ),
                forall|q: int, u: int|
                    0 <= q < m && !defs@[i as int].deps[q].is_task && 0 <= u < universe@.len()
                        && glob_matches(defs@[i as int].deps[q].pattern@, universe@[u]@)
                        ==> exists|c: int|
                        0 <= c < row@.len() && row@[c] < files@.len() && files@[row@[c] as int]@
                            == universe@[u]@,
            decreases dnum - m,
        {
            if !defs[i].deps[m].is_task {
                let unum = universe.len();
                let mut u: usize = 0;
                while u < unum
                    invariant
                        u <= unum,
                        m < dnum,
                        unum == universe@.len(),
                        dnum == defs@[i as int].deps.len(),
                        !defs@[i as int].deps[m as int].is_task,
                        forall|c: int|
                            0 <= c < row@.len() ==> row@[c] < files@.len() && exists|q: int|
                                0 <= q < dnum && !defs@[i as int].deps[q].is_task && glob_matches(
                                    defs@[i as int].deps[q].pattern@,
                                    files@[row@[c] as int]@,
                                ),
                        forall|q: int, w: int|
                            0 <= q < m && !defs@[i as int].deps[q].is_task && 0 <= w
                                < universe@.len() && glob_matches(
                                defs@[i as int].deps[q].pattern@,
                                universe@[w]@,
                            ) ==> exists|c: int|
                                0 <= c < row@.len() && row@[c] < files@.len()
                                    && files@[row@[c] as int]@ == universe@[w]@,
                        forall|w: int|
                            0 <= w < u && glob_matches(
                                defs@[i as int].deps[m as int].pattern@,
                                universe@[w]@,
                            ) ==> exists|c: int|
                                0 <= c < row@.len() && row@[c] < files@.len()
                                    && files@[row@[c] as int]@ == universe@[w]@,
                    decreases unum - u,
                {
                    if glob_match(defs[i].deps[m].pattern.as_str(), universe[u].as_str()) {
                        let ghost pre = row@;
                        let idx = find_file(files, &universe[u]);
                        row.push(idx);
                        proof {
                            assert(row@[row@.len() - 1] == idx);
                            assert(glob_matches(
                                defs@[i as int].deps[m as int].pattern@,
                                files@[idx as int]@,
                            ));
                            assert forall|c: int| 0 <= c < row@.len() implies row@[c]
                                < files@.len() && exists|q: int|
                                0 <= q < dnum && !defs@[i as int].deps[q].is_task && glob_matches(
                                    defs@[i as int].deps[q].pattern@,
                                    files@[row@[c] as int]@,
                                ) by {
                                if c < row@.len() - 1 {
                                    assert(row@[c] == pre[c]);
                                } else {
                                    assert(0 <= m < dnum && !defs@[i as int].deps[m as int].is_task
                                        && glob_matches(
                                        defs@[i as int].deps[m as int].pattern@,
                                        files@[row@[c] as int]@,
                                    ));
                                }
                            }
                            assert forall|q: int, w: int|
                                (0 <= q < m && !defs@[i as int].deps[q].is_task && 0 <= w
                                    < universe@.len() && glob_matches(
                                    defs@[i as int].deps[q].pattern@,
                                    universe@[w]@,
                                )) || (q == m && 0 <= w < u + 1 && glob_matches(
                                    defs@[i as int].deps[m as int].pattern@,
                                    universe@[w]@,
                                )) implies exists|c: int|
                                0 <= c < row@.len() && row@[c] < files@.len()
                                    && files@[row@[c] as int]@ == universe@[w]@ by {
                                if q == m && w == u {
                                    assert(row@[row@.len() - 1] < files@.len()
                                        && files@[row@[row@.len() - 1] as int]@ == universe@[w]@);
                                } else {
                                    let c = choose|c: int|
                                        0 <= c < pre.len() && pre[c] < files@.len()
                                            && files@[pre[c] as int]@ == universe@[w]@;
                                    assert(row@[c] == pre[c]);
                                }
                            }
                        }
                    }
                    u += 1;
                }
            }
            m += 1;
        }
        ins.push(row);
        i += 1;
    }
    ins
}


/// Whether task `i` is selected by itself: flagged `watch`, named by the
/// filter (by identifier or by a declared target), or, with an empty
/// filter, a root that no other task consumes.
pub open spec fn sel_base(defs: Seq<TaskDef>, deps: Seq<Vec<usize>>, filter: Seq<String>, i: usize) -> bool {
    ||| defs[i as int].watch
    ||| if filter.len() == 0 {
        forall|j: int| 0 <= j < deps.len() ==> !seq_has(deps[j]@, i)
    } else {
        exists|f: int|
            0 <= f < filter.len() && (filter[f]@ == defs[i as int].id@ || exists|k: int|
                0 <= k < defs[i as int].targets.len() && filter[f]@ == defs[i as int].targets[k]@)
    }
}

/// The defining equation of the selected set: a task is selected exactly
/// when it is selected by itself or some selected task consumes it.
pub open spec fn sel_eq(defs: Seq<TaskDef>, deps: Seq<Vec<usize>>, filter: Seq<String>, sel: Seq<bool>, i: usize) -> bool {
    sel[i as int] == (sel_base(defs, deps, filter, i) || exists|j: int|
        0 <= j < deps.len() && seq_has(deps[j]@, i) && sel[j])
}

/// Whether task `i` stands in the edge list of task `j`.
#[verifier::loop_isolation(false)]
fn edge_in(deps: &Vec<Vec<usize>>, j: usize, i: usize) -> (r: bool)
    requires
        (j as int) < deps@.len(),
    ensures
        r == seq_has(deps@[j as int]@, i),
{
    let num = deps[j].len();
    let mut k: usize = 0;
    while k < num
        invariant
            k <= num,
            forall|q: int| 0 <= q < k ==> deps@[j as int]@[q] != i,
        decreases num - k,
    {
        if deps[j][k] == i {
            proof {
                assert(deps@[j as int]@[k as int] == i);
            }
            return true;
        }
        k += 1;
    }
    false
}

/// Decides `sel_base` on concrete values.
#[verifier::loop_isolation(false)]
fn sel_base_exec(defs: &Vec<TaskDef>, deps: &Vec<Vec<usize>>, filter: &Vec<String>, i: usize) -> (r: bool)
    requires
        (i as int) < defs@.len(),
        deps@.len() == defs@.len(),
    ensures
        r == sel_base(defs@, deps@, filter@, i),
{
    if defs[i].watch {
        return true;
    }
    let n = defs.len();
    if filter.len() == 0 {
        let mut j: usize = 0;
        while j < n
            invariant
                j <= n,
                forall|q: int| 0 <= q < j ==> !seq_has(deps@[q]@, i),
            decreases n - j,
        {
            if edge_in(deps, j, i) {
                return false;
            }
            j += 1;
        }
        true
    } else {
        let fnum = filter.len();
        let mut f: usize = 0;
        while f < fnum
            invariant
                f <= fnum,
                fnum == filter@.len(),
                forall|q: int|
                    0 <= q < f ==> filter@[q]@ != defs@[i as int].id@ && forall|k: int|
                        0 <= k < defs@[i as int].targets.len() ==> filter@[q]@
                            != defs@[i as int].targets[k]@,
            decreases fnum - f,
        {
            if filter[f].eq(&defs[i].id) {
                return true;
            }
            let tnum = defs[i].targets.len();
            let mut k: usize = 0;
            while k < tnum
                invariant
                    k <= tnum,
                    f < fnum,
                    tnum == defs@[i as int].targets.len(),
                    forall|q: int|
                        0 <= q < k ==> filter@[f as int]@ != defs@[i as int].targets[q]@,
                decreases tnum - k,
            {
                if filter[f].eq(&defs[i].targets[k]) {
                    proof {
                        assert(filter@[f as int]@ == defs@[i as int].targets[k as int]@);
                    }
                    return true;
                }
                k += 1;
            }
            f += 1;
        }
        false
    }
}

/// Computes the selected set by walking the topological order backwards,
/// so that every consumer is final before the task it consumes.
#[verifier::loop_isolation(false)]
#[verifier::rlimit(60)]
fn compute_selected(
    defs: &Vec<TaskDef>,
    deps: &Vec<Vec<usize>>,
    filter: &Vec<String>,
    order: &Vec<usize>,
    rank: &Vec<usize>,
) -> (sel: Vec<bool>)
    requires
        deps@.len() == defs@.len(),
        order@.len() == defs@.len(),
        rank@.len() == defs@.len(),
        deps_wf(deps@),
        forall|p: int|
            0 <= p < order@.len() ==> order@[p] < defs@.len() && rank@[order@[p] as int] == p,
        forall|x: int| 0 <= x < defs@.len() ==> rank@[x] < defs@.len() && order@[rank@[x] as int] == x as usize,
        forall|x: int, k: int|
            0 <= x < deps@.len() && 0 <= k < deps@[x]@.len() ==> rank@[deps@[x]@[k] as int] < rank@[x],
    ensures
        sel@.len() == defs@.len(),
        forall|i: usize| (i as int) < defs@.len() ==> sel_eq(defs@, deps@, filter@, sel@, i),
{
    let n = defs.len();
    let mut sel: Vec<bool> = Vec::new();
    let mut z: usize = 0;
    while z < n
        invariant
            z <= n,
            sel@.len() == z,
            forall|x: int| 0 <= x < z ==> sel@[x] == false,
        decreases n - z,
    {
        sel.push(false);
        z += 1;
    }
    let mut p: usize = n;
    while p > 0
        invariant
            p <= n,
            sel@.len() == n,
            forall|q: int| p <= q < n ==> sel_eq(defs@, deps@, filter@, sel@, order@[q]),
            forall|q: int| 0 <= q < p ==> sel@[order@[q] as int] == false,
        decreases p,
    {
        p -= 1;
        let i = order[p];
        let base = sel_base_exec(defs, deps, filter, i);
        let mut hit = base;
        let mut j: usize = 0;
        while j < n
            invariant
                j <= n,
                p < n,
                i == order@[p as int],
                sel@.len() == n,
                forall|q: int| p < q < n ==> sel_eq(defs@, deps@, filter@, sel@, order@[q]),
                forall|q: int| 0 <= q <= p ==> sel@[order@[q] as int] == false,
                hit ==> base || exists|q: int|
                    0 <= q < deps@.len() && seq_has(deps@[q]@, i) && sel@[q],
                !hit ==> !base && forall|q: int|
                    0 <= q < j ==> !(seq_has(deps@[q]@, i) && sel@[q]),
            decreases n - j,
        {
            if !hit {
                if edge_in(deps, j, i) && sel[j] {
                    hit = true;
                }
            }
            j += 1;
        }
        let ghost pre = sel@;
        sel.set(i, hit);
        proof {
            assert(rank@[i as int] == p as int);
            assert(!seq_has(deps@[i as int]@, i)) by {
                if seq_has(deps@[i as int]@, i) {
                    let k = choose|k: int|
                        0 <= k < deps@[i as int]@.len() && deps@[i as int]@[k] == i;
                    assert(rank@[i as int] < rank@[i as int]);
                }
            }
            assert forall|q: int| p <= q < n implies sel_eq(
                defs@,
                deps@,
                filter@,
                sel@,
                order@[q],
            ) by {
                let x = order@[q];
                if q == p {
                    assert(sel@[x as int] == hit);
                    assert((exists|w: int| 0 <= w < deps@.len() && seq_has(deps@[w]@, x) && sel@[w])
                        == (exists|w: int|
                        0 <= w < deps@.len() && seq_has(deps@[w]@, x) && pre[w])) by {
                        if exists|w: int| 0 <= w < deps@.len() && seq_has(deps@[w]@, x) && sel@[w] {
                            let w = choose|w: int|
                                0 <= w < deps@.len() && seq_has(deps@[w]@, x) && sel@[w];
                            assert(w != i as int);
                            assert(pre[w]);
                        }
                        if exists|w: int| 0 <= w < deps@.len() && seq_has(deps@[w]@, x) && pre[w] {
                            let w = choose|w: int|
                                0 <= w < deps@.len() && seq_has(deps@[w]@, x) && pre[w];
                            assert(w != i as int);
                            assert(sel@[w]);
                        }
                    }
                } else {
                    assert(x != i) by {
                        assert(rank@[x as int] == q);
                    }
                    assert(sel@[x as int] == pre[x as int]);
                    assert((exists|w: int| 0 <= w < deps@.len() && seq_has(deps@[w]@, x) && sel@[w])
                        == (exists|w: int|
                        0 <= w < deps@.len() && seq_has(deps@[w]@, x) && pre[w])) by {
                        if exists|w: int| 0 <= w < deps@.len() && seq_has(deps@[w]@, x) && sel@[w] {
                            let w = choose|w: int|
                                0 <= w < deps@.len() && seq_has(deps@[w]@, x) && sel@[w];
                            if w == i as int {
                                assert(rank@[x as int] < rank@[i as int]);
                            }
                            assert(pre[w]);
                        }
                        if exists|w: int| 0 <= w < deps@.len() && seq_has(deps@[w]@, x) && pre[w] {
                            let w = choose|w: int|
                                0 <= w < deps@.len() && seq_has(deps@[w]@, x) && pre[w];
                            if w == i as int {
                                assert(rank@[x as int] < rank@[i as int]);
                            }
                            assert(sel@[w]);
                        }
                    }
                }
            }
        }
    }
    proof {
        assert forall|i: usize| (i as int) < defs@.len() implies sel_eq(
            defs@,
            deps@,
            filter@,
            sel@,
            i,
        ) by {
            assert(order@[rank@[i as int] as int] == i);
        }
    }
    sel
}


/// The task graph: the definitions, the file node table, resolved task
/// edges and input/output file nodes, the selected set, and a topological
/// order with its inverse `rank`, in which every dependency of a task has
/// a smaller rank.
pub struct Graph {
    pub defs: Vec<TaskDef>,
    pub files: Vec<String>,
    pub depends_on: Vec<Vec<usize>>,
    pub input_files: Vec<Vec<usize>>,
    pub output_files: Vec<Vec<usize>>,
    pub selected: Vec<bool>,
    pub order: Vec<usize>,
    pub rank: Vec<usize>,
}

impl Graph {
    /// The number of task nodes.
    pub open spec fn n(self) -> int {
        self.defs@.len() as int
    }

    /// Whether task `i` depends on task `j` through a resolved edge.
    pub open spec fn has_edge(self, i: int, j: usize) -> bool {
        seq_has(self.depends_on@[i]@, j)
    }

    /// Structural and semantic well-formedness: edge lists match the
    /// definitions exactly, file references stay in the table, the table
    /// holds no path twice, and `order`/`rank` are inverse bijections
    /// under which every edge decreases the rank.
    pub open spec fn wf(self) -> bool {
        &&& self.depends_on@.len() == self.n()
        &&& self.input_files@.len() == self.n()
        &&& self.output_files@.len() == self.n()
        &&& self.selected@.len() == self.n()
        &&& self.order@.len() == self.n()
        &&& self.rank@.len() == self.n()
        &&& deps_wf(self.depends_on@)
        &&& forall|i: int, j: usize|
            0 <= i < self.n() && (j as int) < self.n() ==> (self.has_edge(i, j) <==> edge_pair(
                self.defs@[i],
                self.defs@[j as int],
            ))
        &&& files_distinct(self.files@)
        &&& forall|i: int| 0 <= i < self.n() ==> outputs_ok(self.defs@[i], self.output_files@[i]@, self.files@)
        &&& forall|i: int, c: int|
            0 <= i < self.n() && 0 <= c < self.input_files@[i]@.len()
                ==> self.input_files@[i]@[c] < self.files@.len()
        &&& forall|p: int|
            0 <= p < self.n() ==> self.order@[p] < self.n() && self.rank@[self.order@[p] as int] == p
        &&& forall|x: int|
            0 <= x < self.n() ==> self.rank@[x] < self.n() && self.order@[self.rank@[x] as int]
                == x as usize
        &&& forall|x: int, k: int|
            0 <= x < self.n() && 0 <= k < self.depends_on@[x]@.len()
                ==> self.rank@[self.depends_on@[x]@[k] as int] < self.rank@[x]
    }
}

/// Builds the graph from the task definitions, the file universe (the
/// paths that currently exist), and the caller's target filter. Succeeds
/// exactly when no mandatory dependency pattern is unmatched, no two
/// tasks produce the same concrete target, and the resolved edges are
/// acyclic; each error carries its witness.
#[verifier::loop_isolation(false)]
pub fn build(defs: Vec<TaskDef>, universe: &Vec<String>, filter: &Vec<String>) -> (r: Result<
    Graph,
    GraphError,
>)
    ensures
        (match r {
            Ok(g) => {
                &&& g.wf()
                &&& g.defs@ == defs@
                &&& forall|i: int|
                    0 <= i < defs@.len() ==> inputs_ok(defs@[i], g.input_files@[i]@, g.files@, universe@)
                &&& no_duplicate_producer(defs@)
                &&& forall|i: int, m: int|
                    0 <= i < defs@.len() && 0 <= m < defs@[i].deps.len() && defs@[i].deps[m].mandatory
                        ==> dep_matched_any(defs@[i].deps[m], defs@, universe@)
                &&& forall|i: usize|
                    (i as int) < defs@.len() ==> sel_eq(defs@, g.depends_on@, filter@, g.selected@, i)
            },
            Err(GraphError::Cycle { path }) => {
                &&& path@.len() >= 1
                &&& forall|k: int| 0 <= k < path@.len() ==> path@[k] < defs@.len()
                &&& forall|k: int| #![trigger path@[k]]
                    0 <= k < path@.len() - 1 ==> edge_pair(
                        defs@[path@[k] as int],
                        defs@[path@[k + 1] as int],
                    )
                &&& edge_pair(defs@[path@.last() as int], defs@[path@[0] as int])
            },
            Err(GraphError::DuplicateProducer { target, first, second }) => {
                &&& (first as int) < defs@.len()
                &&& (second as int) < defs@.len()
                &&& first != second
                &&& exists|k1: int, k2: int|
                    concrete_target(defs@[first as int], k1) && concrete_target(
                        defs@[second as int],
                        k2,
                    ) && defs@[first as int].targets[k1]@ == target@ && defs@[second as int].targets[k2]@
                        == target@
            },
            Err(GraphError::UnresolvedDep { task, dep }) => {
                &&& (task as int) < defs@.len()
                &&& (dep as int) < defs@[task as int].deps.len()
                &&& defs@[task as int].deps[dep as int].mandatory
                &&& !dep_matched_any(defs@[task as int].deps[dep as int], defs@, universe@)
            },
        }),
{
    let n = defs.len();
    let deps = resolve_edges(&defs);
    if let Some((task, dep)) = find_unmatched_mandatory(&defs, universe) {
        return Err(GraphError::UnresolvedDep { task, dep });
    }
    if let Some((i1, i2, k1)) = find_duplicate_producer(&defs) {
        let target = defs[i1].targets[k1].clone();
        proof {
            let k2 = choose|k2: int|
                concrete_target(defs@[i2 as int], k2) && defs@[i2 as int].targets[k2]@
                    == defs@[i1 as int].targets[k1 as int]@;
            assert(concrete_target(defs@[i1 as int], k1 as int) && concrete_target(
                defs@[i2 as int],
                k2,
            ) && defs@[i1 as int].targets[k1 as int]@ == target@ && defs@[i2 as int].targets[k2]@
                == target@);
        }
        return Err(GraphError::DuplicateProducer { target, first: i1, second: i2 });
    }
    let files = intern_all(&defs, universe);
    let outs = resolve_outputs(&defs, &files);
    let ins = resolve_inputs(&defs, universe, &files);
    let mut colors: Vec<u8> = Vec::new();
    let mut rank: Vec<usize> = Vec::new();
    let mut z: usize = 0;
    while z < n
        invariant
            z <= n,
            colors@.len() == z,
            rank@.len() == z,
            forall|x: int| 0 <= x < z ==> colors@[x] == 0,
        decreases n - z,
    {
        colors.push(0);
        rank.push(0);
        z += 1;
    }
    let mut order: Vec<usize> = Vec::new();
    proof {
        lemma_count_none(colors@, 2u8);
    }
    let mut s: usize = 0;
    while s < n
        invariant
            s <= n,
            colors@.len() == n,
            rank@.len() == n,
            dfs_inv(deps@, colors@, order@, rank@),
            forall|x: usize| (x as int) < n ==> colors@[x as int] != 1,
            forall|x: int| 0 <= x < s ==> colors@[x] == 2,
        decreases n - s,
    {
        if colors[s] == 0 {
            let res = dfs(&deps, s, &mut colors, &mut order, &mut rank, Ghost(Set::empty()));
            match res {
                Ok(()) => {
                    proof {
                        assert forall|x: usize| (x as int) < n implies colors@[x as int] != 1 by {
                            assert(!Set::<usize>::empty().contains(x));
                        }
                    }
                },
                Err(acc) => {
                    proof {
                        assert(!Set::<usize>::empty().contains(acc.head));
                        assert(acc.done);
                        assert forall|k: int| #![trigger acc.path@[k]]
                            0 <= k < acc.path@.len() - 1 implies edge_pair(
                            defs@[acc.path@[k] as int],
                            defs@[acc.path@[k + 1] as int],
                        ) by {
                            assert(seq_has(deps@[acc.path@[k] as int]@, acc.path@[k + 1]));
                        }
                        assert(seq_has(deps@[acc.path@.last() as int]@, acc.path@[0]));
                    }
                    return Err(GraphError::Cycle { path: acc.path });
                },
            }
        }
        s += 1;
    }
    proof {
        lemma_count_all(colors@, 2u8);
        assert(order@.len() == n);
        assert forall|x: int| 0 <= x < n implies rank@[x] < n && order@[rank@[x] as int]
            == x as usize by {
            assert(colors@[x] == 2);
        }
    }
    let selected = compute_selected(&defs, &deps, filter, &order, &rank);
    proof {
        assert(deps_wf(deps@));
        assert(files_distinct(files@));
        assert(forall|i: int| 0 <= i < n ==> outputs_ok(defs@[i], outs@[i]@, files@));
        assert forall|i: int, c: int|
            0 <= i < n && 0 <= c < ins@[i]@.len() implies ins@[i]@[c] < files@.len() by {
            assert(inputs_ok(defs@[i], ins@[i]@, files@, universe@));
        }
        assert(forall|p: int| 0 <= p < n ==> order@[p] < n && rank@[order@[p] as int] == p);
        assert(forall|x: int, k: int|
            0 <= x < n && 0 <= k < deps@[x]@.len() ==> rank@[deps@[x]@[k] as int] < rank@[x]);
        assert(forall|i: int, j: usize|
            0 <= i < n && (j as int) < n ==> (seq_has(deps@[i]@, j) <==> edge_pair(
                defs@[i],
                defs@[j as int],
            )));
        assert(forall|i: int|
            0 <= i < n ==> inputs_ok(defs@[i], ins@[i]@, files@, universe@));
        assert(forall|i: usize| (i as int) < n ==> sel_eq(defs@, deps@, filter@, selected@, i));
        assert(no_duplicate_producer(defs@));
    }
    Ok(Graph {
        defs,
        files,
        depends_on: deps,
        input_files: ins,
        output_files: outs,
        selected,
        order,
        rank,
    })
}

/// Along a chain of edges the rank strictly decreases, so after `k` steps
/// it has dropped by at least `k`.
proof fn lemma_rank_chain(g: Graph, path: Seq<usize>, k: int)
    requires
        g.wf(),
        forall|q: int| 0 <= q < path.len() ==> path[q] < g.n(),
        forall|q: int| #![trigger path[q]]
            0 <= q < path.len() - 1 ==> seq_has(g.depends_on@[path[q] as int]@, path[q + 1]),
        0 <= k < path.len(),
    ensures
        g.rank@[path[k] as int] + k <= g.rank@[path[0] as int],
    decreases k,
{
    if k > 0 {
        lemma_rank_chain(g, path, k - 1);
        let w = choose|w: int| #![trigger g.depends_on@[path[k - 1] as int]@[w]]
            0 <= w < g.depends_on@[path[k - 1] as int]@.len() && g.depends_on@[path[k - 1] as int]@[w]
                == path[k];
        assert(g.rank@[path[k] as int] < g.rank@[path[k - 1] as int]);
    }
}

/// A well-formed graph has no cycle: a chain of resolved dependency
/// edges never closes back on its first task, since the topological rank
/// strictly decreases along it. With `build`'s contract this says that a
/// cyclic set of definitions is reported as an error, never built.
pub proof fn lemma_wf_acyclic(g: Graph, path: Seq<usize>)
    requires
        g.wf(),
        path.len() >= 1,
        forall|q: int| 0 <= q < path.len() ==> path[q] < g.n(),
        forall|q: int| #![trigger path[q]]
            0 <= q < path.len() - 1 ==> edge_pair(g.defs@[path[q] as int], g.defs@[path[q + 1] as int]),
    ensures
        !edge_pair(g.defs@[path.last() as int], g.defs@[path[0] as int]),
{
    assert forall|q: int| #![trigger path[q]] 0 <= q < path.len() - 1 implies seq_has(
        g.depends_on@[path[q] as int]@,
        path[q + 1],
    ) by {
        assert(g.has_edge(path[q] as int, path[q + 1]));
    }
    let last = path.len() - 1;
    lemma_rank_chain(g, path, last);
    if edge_pair(g.defs@[path.last() as int], g.defs@[path[0] as int]) {
        assert(g.has_edge(path[last] as int, path[0]));
        let w = choose|w: int| #![trigger g.depends_on@[path[last] as int]@[w]]
            0 <= w < g.depends_on@[path[last] as int]@.len() && g.depends_on@[path[last] as int]@[w]
                == path[0];
        assert(g.rank@[path[0] as int] < g.rank@[path[last] as int]);
        assert(false);
    }
}


/// The invariant of the depth-first walk: `order` lists exactly the black
/// (fully processed) nodes, `rank` inverts it, and every dependency of a
/// black node is black with a smaller rank.
pub open spec fn dfs_inv(deps: Seq<Vec<usize>>, colors: Seq<u8>, order: Seq<usize>, rank: Seq<usize>) -> bool {
    &&& colors.len() == deps.len()
    &&& rank.len() == deps.len()
    &&& forall|x: int| 0 <= x < colors.len() ==> colors[x] == 0 || colors[x] == 1 || colors[x] == 2
    &&& order.len() <= deps.len()
    &&& forall|p: int|
        0 <= p < order.len() ==> order[p] < deps.len() && colors[order[p] as int] == 2
            && rank[order[p] as int] == p
    &&& forall|x: int|
        0 <= x < deps.len() && colors[x] == 2 ==> rank[x] < order.len()
            && order[rank[x] as int] == x as usize
    &&& forall|x: int, k: int|
        0 <= x < deps.len() && colors[x] == 2 && 0 <= k < deps[x]@.len() ==> colors[deps[x]@[k] as int]
            == 2 && rank[deps[x]@[k] as int] < rank[x]
    &&& order.len() == count_val(colors, 2u8)
}

/// Edge targets stay inside the node range.
pub open spec fn deps_wf(deps: Seq<Vec<usize>>) -> bool {
    forall|i: int, k: int|
        0 <= i < deps.len() && 0 <= k < deps[i]@.len() ==> deps[i]@[k] < deps.len()
}

struct CycleAcc {
    done: bool,
    head: usize,
    path: Vec<usize>,
}

#[verifier::loop_isolation(false)]
fn dfs(
    deps: &Vec<Vec<usize>>,
    v: usize,
    colors: &mut Vec<u8>,
    order: &mut Vec<usize>,
    rank: &mut Vec<usize>,
    ancestors: Ghost<Set<usize>>,
) -> (r: Result<(), CycleAcc>)
    requires
        deps_wf(deps@),
        dfs_inv(deps@, old(colors)@, old(order)@, old(rank)@),
        v < deps@.len(),
        old(colors)@[v as int] == 0,
        forall|x: usize| x < deps@.len() ==> (old(colors)@[x as int] == 1 <==> ancestors@.contains(x)),
    ensures
        final(colors)@.len() == old(colors)@.len(),
        final(rank)@.len() == old(rank)@.len(),
        dfs_inv(deps@, final(colors)@, final(order)@, final(rank)@),
        forall|x: int|
            0 <= x < final(colors)@.len() && old(colors)@[x] != 0 ==> final(colors)@[x] == old(
                colors,
            )@[x],
        forall|x: int| 0 <= x < final(colors)@.len() && final(colors)@[x] == 0 ==> old(colors)@[x] == 0,
        r is Ok ==> final(colors)@[v as int] == 2,
        r is Ok ==> forall|x: usize|
            x < final(colors)@.len() ==> (final(colors)@[x as int] == 1 <==> ancestors@.contains(x)),
        (match r {
            Ok(_) => true,
            Err(acc) => {
                &&& acc.path@.len() >= 1
                &&& forall|k: int| 0 <= k < acc.path@.len() ==> acc.path@[k] < deps@.len()
                &&& forall|k: int|
                    0 <= k < acc.path@.len() - 1 ==> seq_has(deps@[acc.path@[k] as int]@, acc.path@[k + 1])
                &&& (acc.done ==> is_cycle(deps@, acc.path@))
                &&& (!acc.done ==> acc.path@[0] == v && seq_has(deps@[acc.path@.last() as int]@, acc.head)
                    && ancestors@.contains(acc.head))
            },
        }),
    decreases count_val(colors@, 0u8),
{
    let ghost entry_colors = colors@;
    colors.set(v, 1);
    proof {
        lemma_count_update(entry_colors, v as int, 1u8, 0u8);
        lemma_count_update(entry_colors, v as int, 1u8, 2u8);
    }
    let ghost anc2 = ancestors@.insert(v);
    let num = deps[v].len();
    let mut j: usize = 0;
    while j < num
        invariant
            j <= num,
            colors@.len() == entry_colors.len(),
            rank@.len() == deps@.len(),
            dfs_inv(deps@, colors@, order@, rank@),
            colors@[v as int] == 1,
            forall|x: int|
                0 <= x < colors@.len() && entry_colors[x] != 0 ==> colors@[x] == entry_colors[x],
            forall|x: int| 0 <= x < colors@.len() && colors@[x] == 0 ==> entry_colors[x] == 0,
            forall|x: usize| x < deps@.len() ==> (colors@[x as int] == 1 <==> anc2.contains(x)),
            forall|q: int| 0 <= q < j ==> colors@[deps@[v as int]@[q] as int] == 2,
        decreases num - j,
    {
        let w = deps[v][j];
        let c = colors[w];
        if c == 1 {
            let mut path: Vec<usize> = Vec::new();
            path.push(v);
            if w == v {
                return Err(CycleAcc { done: true, head: w, path });
            } else {
                proof {
                    assert(anc2.contains(w));
                    assert(ancestors@.contains(w));
                }
                return Err(CycleAcc { done: false, head: w, path });
            }
        } else if c == 0 {
            proof {
                lemma_count_lt(entry_colors, colors@, 0u8, v as int);
            }
            let res = dfs(deps, w, colors, order, rank, Ghost(anc2));
            match res {
                Ok(()) => {},
                Err(acc) => {
                    if acc.done {
                        return Err(acc);
                    }
                    let CycleAcc { done: _, head, path } = acc;
                    let mut path2: Vec<usize> = Vec::new();
                    path2.push(v);
                    let mut rest = path;
                    path2.append(&mut rest);
                    proof {
                        assert(path2@[0] == v);
                        assert(path2@[1] == acc.path@[0]);
                        assert(acc.path@[0] == w);
                        assert(seq_has(deps@[v as int]@, w));
                        assert(path2@.last() == acc.path@.last());
                        assert forall|k: int| 0 <= k < path2@.len() - 1 implies seq_has(
                            deps@[path2@[k] as int]@,
                            path2@[k + 1],
                        ) by {
                            if k > 0 {
                                assert(path2@[k] == acc.path@[k - 1]);
                                assert(path2@[k + 1] == acc.path@[k]);
                            }
                        }
                    }
                    if head == v {
                        proof {
                            assert(seq_has(deps@[path2@.last() as int]@, path2@[0]));
                        }
                        return Err(CycleAcc { done: true, head, path: path2 });
                    } else {
                        proof {
                            assert(anc2.contains(head));
                            assert(ancestors@.contains(head));
                        }
                        return Err(CycleAcc { done: false, head, path: path2 });
                    }
                },
            }
        } else {
            proof {
                assert(colors@[w as int] == 2);
            }
        }
        j += 1;
    }
    let ghost pre_final = colors@;
    let ghost pre_order = order@;
    colors.set(v, 2);
    let pos = order.len();
    rank.set(v, pos);
    order.push(v);
    proof {
        lemma_count_update(pre_final, v as int, 2u8, 2u8);
        lemma_count_le_len(colors@, 2u8);
        assert forall|x: usize| x < colors@.len() implies (colors@[x as int] == 1
            <==> ancestors@.contains(x)) by {
            if x != v {
                assert(colors@[x as int] == pre_final[x as int]);
                assert(pre_final[x as int] == 1 <==> anc2.contains(x));
                assert(anc2.contains(x) <==> ancestors@.contains(x));
            }
        }
        assert forall|p: int| 0 <= p < order@.len() implies order@[p] < deps@.len()
            && colors@[order@[p] as int] == 2 && rank@[order@[p] as int] == p by {
            if p < order@.len() - 1 {
                assert(order@[p] == pre_order[p]);
            }
        }
    }
    Ok(())
}

} // verus!
