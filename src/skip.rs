use vstd::prelude::*;

use crate::dag::ExecutionDAGData;
use crate::validate::contains;

verus! {

/// Execution `x` reads a file that execution `y` produces.
pub open spec fn consumes(dag: ExecutionDAGData, x: int, y: int) -> bool {
    0 <= x < dag.executions@.len() && exists|k: int|
        0 <= k < dag.executions@[x].deps().len() && #[trigger] dag.produces(
            y,
            dag.executions@[x].deps()[k],
        )
}

/// Execution `x` depends, through at most `n` consumer steps, on the files
/// of execution `from`.
pub open spec fn reaches_within(dag: ExecutionDAGData, from: int, x: int, n: nat) -> bool
    decreases n,
{
    if n == 0 {
        false
    } else {
        consumes(dag, x, from) || exists|y: int| #[trigger]
            consumes(dag, x, y) && reaches_within(dag, from, y, (n - 1) as nat)
    }
}

/// Execution `x` is downstream of execution `from`.
#[verifier::opaque]
pub open spec fn reaches(dag: ExecutionDAGData, from: int, x: int) -> bool {
    exists|n: nat| reaches_within(dag, from, x, n)
}

proof fn lemma_reach_monotone(dag: ExecutionDAGData, from: int, x: int, n: nat)
    requires
        reaches_within(dag, from, x, n),
    ensures
        reaches_within(dag, from, x, n + 1),
    decreases n,
{
    if !consumes(dag, x, from) {
        let y = choose|y: int| #[trigger]
            consumes(dag, x, y) && reaches_within(dag, from, y, (n - 1) as nat);
        lemma_reach_monotone(dag, from, y, (n - 1) as nat);
        assert(consumes(dag, x, y) && reaches_within(dag, from, y, n));
    }
}

fn consumes_exec(dag: &ExecutionDAGData, x: usize, y: usize) -> (r: bool)
    requires
        x < dag.executions.len(),
        y < dag.executions.len(),
    ensures
        r == consumes(*dag, x as int, y as int),
{
    let deps = dag.executions[x].dependencies();
    let outs = dag.executions[y].output_files();
    let mut k: usize = 0;
    while k < deps.len()
        invariant
            x < dag.executions.len(),
            y < dag.executions.len(),
            deps@ == dag.executions@[x as int].deps(),
            outs@ == dag.executions@[y as int].outs(),
            k <= deps.len(),
            forall|k2: int| 0 <= k2 < k ==> !#[trigger] dag.produces(y as int, deps@[k2]),
        decreases deps.len() - k,
    {
        if contains(&outs, deps[k]) {
            assert(dag.produces(y as int, deps@[k as int]));
            return true;
        }
        k += 1;
    }
    false
}

/// Execution `a` is at least as close to `from` as execution `b`: every
/// number of steps within which `b` is reached also reaches `a`.
pub open spec fn no_farther(dag: ExecutionDAGData, from: int, a: int, b: int) -> bool {
    forall|n: nat| reaches_within(dag, from, b, n) ==> reaches_within(dag, from, a, n)
}

proof fn lemma_reach_le(dag: ExecutionDAGData, from: int, x: int, n: nat, m: nat)
    requires
        reaches_within(dag, from, x, n),
        n <= m,
    ensures
        reaches_within(dag, from, x, m),
    decreases m - n,
{
    if n < m {
        lemma_reach_monotone(dag, from, x, n);
        lemma_reach_le(dag, from, x, n + 1, m);
    }
}

proof fn lemma_reach_one(dag: ExecutionDAGData, from: int, z: int)
    ensures
        reaches_within(dag, from, z, 1) == consumes(dag, z, from),
{
    if reaches_within(dag, from, z, 1) && !consumes(dag, z, from) {
        let y = choose|y: int| #[trigger] consumes(dag, z, y) && reaches_within(dag, from, y, 0);
        assert(!reaches_within(dag, from, y, 0));
    }
}

/// When the level after `k` adds nothing, `k` steps reach all there is.
proof fn lemma_reach_closed(dag: ExecutionDAGData, from: int, k: nat, x: int, m: nat)
    requires
        k >= 1,
        forall|z: int| #[trigger] reaches_within(dag, from, z, k + 1) ==> reaches_within(dag, from, z, k),
        reaches_within(dag, from, x, m),
    ensures
        reaches_within(dag, from, x, k),
    decreases m,
{
    if m <= k {
        lemma_reach_le(dag, from, x, m, k);
    } else if consumes(dag, x, from) {
        assert(reaches_within(dag, from, x, 1));
        lemma_reach_le(dag, from, x, 1, k);
    } else {
        let y = choose|y: int| #[trigger] consumes(dag, x, y) && reaches_within(dag, from, y, (m - 1) as nat);
        lemma_reach_closed(dag, from, k, y, (m - 1) as nat);
        assert(consumes(dag, x, y) && reaches_within(dag, from, y, k));
        assert(reaches_within(dag, from, x, k + 1));
    }
}

/// The executions to skip when execution `failed` fails: every execution
/// downstream of it through the files it and they produce, each listed once,
/// in breadth-first order (no execution comes after one that is farther).
pub fn skip_targets(dag: &ExecutionDAGData, failed: usize) -> (r: Vec<usize>)
    requires
        failed < dag.executions.len(),
    ensures
        r@.no_duplicates(),
        forall|z: usize| r@.contains(z) <==> (z < dag.executions.len() && reaches(*dag, failed as int, z as int)),
        forall|i: int, j: int|
            0 <= i < j < r@.len() ==> no_farther(*dag, failed as int, r@[i] as int, r@[j] as int),
{
    let n = dag.executions.len();
    let ghost from = failed as int;
    let mut marks: Vec<bool> = Vec::new();
    let mut r: Vec<usize> = Vec::new();
    let mut z: usize = 0;
    while z < n
        invariant
            n == dag.executions.len(),
            failed < n,
            from == failed as int,
            z <= n,
            marks.len() == z,
            r@.no_duplicates(),
            crate::validate::count_true(marks@) == r@.len(),
            forall|i: int| 0 <= i < r@.len() ==> #[trigger] r@[i] < z,
            forall|z2: int| 0 <= z2 < z ==> (marks@[z2] <==> reaches_within(*dag, from, z2, 1)),
            forall|w: usize| r@.contains(w) <==> (w < z && marks@[w as int]),
            forall|i: int| 0 <= i < r@.len() ==> reaches_within(*dag, from, #[trigger] r@[i] as int, 1),
        decreases n - z,
    {
        let hit = consumes_exec(dag, z, failed);
        proof {
            lemma_reach_one(*dag, from, z as int);
        }
        let ghost m0 = marks@;
        let ghost r0 = r@;
        marks.push(hit);
        proof {
            assert(marks@.drop_last() =~= m0);
            assert forall|w: usize| r0.contains(w) <==> (w < z + 1 && marks@[w as int] && w != z) by {}
        }
        if hit {
            r.push(z);
            proof {
                assert(reaches_within(*dag, from, z as int, 1));
                assert forall|w: usize| r@.contains(w) <==> (w < z + 1 && marks@[w as int]) by {
                    vstd::seq_lib::lemma_seq_contains_after_push(r0, z, w);
                }
                assert(r@.no_duplicates()) by {
                    assert forall|i: int, j: int| 0 <= i < r@.len() && 0 <= j < r@.len() && i != j implies r@[i] != r@[j] by {
                        if i == r0.len() {
                            assert(r0[j] < z);
                        } else if j == r0.len() {
                            assert(r0[i] < z);
                        }
                    }
                }
            }
        } else {
            proof {
                assert forall|w: usize| r@.contains(w) <==> (w < z + 1 && marks@[w as int]) by {}
            }
        }
        z += 1;
    }
    proof {
        assert forall|i: int, j: int| 0 <= i < j < r@.len() implies no_farther(*dag, from, r@[i] as int, r@[j] as int) by {
            assert forall|m: nat| reaches_within(*dag, from, r@[j] as int, m) implies reaches_within(*dag, from, r@[i] as int, m) by {
                lemma_reach_le(*dag, from, r@[i] as int, 1, m);
            }
        }
    }
    let ghost mut k: nat = 1;
    let mut start: usize = 0;
    proof {
        crate::validate::lemma_count_le(marks@);
    }
    while start < r.len()
        invariant
            n == dag.executions.len(),
            failed < n,
            from == failed as int,
            k >= 1,
            marks.len() == n,
            start <= r.len(),
            r@.no_duplicates(),
            crate::validate::count_true(marks@) == r@.len(),
            crate::validate::count_true(marks@) <= n,
            forall|i: int| 0 <= i < r@.len() ==> #[trigger] r@[i] < n,
            forall|z2: int| 0 <= z2 < n ==> (marks@[z2] <==> reaches_within(*dag, from, z2, k)),
            forall|w: usize| r@.contains(w) <==> (w < n && marks@[w as int]),
            forall|i: int| 0 <= i < start ==> reaches_within(*dag, from, #[trigger] r@[i] as int, (k - 1) as nat),
            forall|i: int| start <= i < r@.len() ==> !reaches_within(*dag, from, #[trigger] r@[i] as int, (k - 1) as nat),
            forall|i: int, j: int|
                0 <= i < j < r@.len() ==> no_farther(*dag, from, r@[i] as int, r@[j] as int),
        decreases 2 * (n - r@.len()) + (r@.len() - start),
    {
        let end = r.len();
        let ghost r_old = r@;
        let ghost m_old = marks@;
        proof {
            assert forall|i: int| 0 <= i < end implies reaches_within(*dag, from, #[trigger] r_old[i] as int, k) by {
                assert(r_old.contains(r_old[i]));
            }
            assert(r@.subrange(0, end as int) =~= r_old);
        }
        let mut z: usize = 0;
        while z < n
            invariant
                n == dag.executions.len(),
                failed < n,
                from == failed as int,
            from == failed as int,
                k >= 1,
                marks.len() == n,
                start < end,
                end == r_old.len(),
                z <= n,
                r@.len() >= end,
                r@.subrange(0, end as int) == r_old,
                r@.no_duplicates(),
                crate::validate::count_true(marks@) == r@.len(),
                crate::validate::count_true(marks@) <= n,
                forall|i: int| 0 <= i < r@.len() ==> #[trigger] r@[i] < n,
                forall|z2: int| 0 <= z2 < n ==> (m_old[z2] <==> reaches_within(*dag, from, z2, k)),
                forall|w: usize| r_old.contains(w) <==> (w < n && m_old[w as int]),
                forall|z2: int| z <= z2 < n ==> marks@[z2] == m_old[z2],
                forall|z2: int| 0 <= z2 < z ==> (marks@[z2] <==> reaches_within(*dag, from, z2, k + 1)),
                forall|w: usize| r@.contains(w) <==> (w < n && marks@[w as int]),
                forall|i: int| 0 <= i < start ==> reaches_within(*dag, from, #[trigger] r_old[i] as int, (k - 1) as nat),
                forall|i: int| start <= i < end ==> !reaches_within(*dag, from, #[trigger] r_old[i] as int, (k - 1) as nat),
                forall|i: int| 0 <= i < end ==> reaches_within(*dag, from, #[trigger] r_old[i] as int, k),
                forall|i: int| end <= i < r@.len() ==> !reaches_within(*dag, from, #[trigger] r@[i] as int, k)
                    && reaches_within(*dag, from, r@[i] as int, k + 1),
                forall|i: int, j: int|
                    0 <= i < j < r@.len() ==> no_farther(*dag, from, r@[i] as int, r@[j] as int),
            decreases n - z,
        {
            if !marks[z] {
                let mut hit = false;
                let mut q: usize = start;
                while q < end && !hit
                    invariant
                        n == dag.executions.len(),
                        z < n,
                        start <= q <= end,
                        end <= r@.len(),
                        forall|i: int| 0 <= i < r@.len() ==> #[trigger] r@[i] < n,
                        hit ==> exists|i: int| start <= i < end && consumes(*dag, z as int, #[trigger] r@[i] as int),
                        !hit ==> forall|i: int| start <= i < q ==> !consumes(*dag, z as int, #[trigger] r@[i] as int),
                    decreases end - q,
                {
                    if consumes_exec(dag, z, r[q]) {
                        hit = true;
                    }
                    q += 1;
                }
                let ghost mz = marks@;
                let ghost rz = r@;
                proof {
                    // z is reached within k + 1 steps exactly when it reads a
                    // file of the last level.
                    assert(marks@[z as int] == m_old[z as int]);
                    assert(!m_old[z as int]);
                    assert(!reaches_within(*dag, from, z as int, k));
                    if reaches_within(*dag, from, z as int, k + 1) {
                        if consumes(*dag, z as int, from) {
                            assert(reaches_within(*dag, from, z as int, 1));
                            lemma_reach_le(*dag, from, z as int, 1, k);
                        } else {
                            let y = choose|y: int| #[trigger] consumes(*dag, z as int, y) && reaches_within(*dag, from, y, k);
                            if k >= 2 && reaches_within(*dag, from, y, (k - 1) as nat) {
                                assert(consumes(*dag, z as int, y) && reaches_within(*dag, from, y, (k - 1) as nat));
                                assert(reaches_within(*dag, from, z as int, k));
                            }
                            if k == 1 {
                                assert(!reaches_within(*dag, from, y, 0));
                            }
                            assert(0 <= y < n);
                            assert(m_old[y]);
                            assert(r_old.contains(y as usize));
                            let i = choose|i: int| 0 <= i < r_old.len() && r_old[i] == y as usize;
                            assert(start <= i);
                            assert(r@[i] == r_old[i]);
                            assert(hit);
                        }
                    }
                    if hit {
                        let i = choose|i: int| start <= i < end && consumes(*dag, z as int, #[trigger] r@[i] as int);
                        assert(r@[i] == r_old[i]);
                        assert(consumes(*dag, z as int, r@[i] as int) && reaches_within(*dag, from, r@[i] as int, k));
                        assert(reaches_within(*dag, from, z as int, k + 1));
                    }
                }
                if hit {
                    marks.set(z, true);
                    r.push(z);
                    proof {
                        crate::validate::lemma_count_set(mz, z as int);
                        crate::validate::lemma_count_le(marks@);
                        assert(!rz.contains(z));
                        assert forall|w: usize| r@.contains(w) <==> (w < n && marks@[w as int]) by {
                            vstd::seq_lib::lemma_seq_contains_after_push(rz, z, w);
                        }
                        assert(r@.no_duplicates()) by {
                            assert forall|i: int, j: int| 0 <= i < r@.len() && 0 <= j < r@.len() && i != j implies r@[i] != r@[j] by {
                                if i == rz.len() {
                                    assert(rz.contains(r@[j]));
                                } else if j == rz.len() {
                                    assert(rz.contains(r@[i]));
                                }
                            }
                        }
                        assert(r@.subrange(0, end as int) =~= rz.subrange(0, end as int));
                        assert forall|i: int, j: int|
                            0 <= i < j < r@.len() implies no_farther(*dag, from, r@[i] as int, r@[j] as int) by {
                            if j == rz.len() {
                                assert forall|m: nat| reaches_within(*dag, from, r@[j] as int, m) implies reaches_within(*dag, from, r@[i] as int, m) by {
                                    if m <= k {
                                        lemma_reach_le(*dag, from, z as int, m, k);
                                    }
                                    if i < end {
                                        assert(r@[i] == r_old[i]);
                                        lemma_reach_le(*dag, from, r@[i] as int, k, m);
                                    } else {
                                        lemma_reach_le(*dag, from, r@[i] as int, k + 1, m);
                                    }
                                }
                            } else {
                                assert(r@[i] == rz[i] && r@[j] == rz[j]);
                            }
                        }
                    }
                }
            } else {
                proof {
                    assert(marks@[z as int] == m_old[z as int]);
                    lemma_reach_monotone(*dag, from, z as int, k);
                }
            }
            z += 1;
        }
        proof {
            assert forall|i: int| 0 <= i < end implies reaches_within(*dag, from, #[trigger] r@[i] as int, k) by {
                assert(r@[i] == r_old[i]);
            }
            k = k + 1;
        }
        start = end;
    }
    proof {
        // The last level added nothing: `k` steps reach everything.
        assert forall|z2: int| #[trigger] reaches_within(*dag, from, z2, k + 1) implies reaches_within(*dag, from, z2, k) by {
            if !reaches_within(*dag, from, z2, k) && reaches_within(*dag, from, z2, k + 1) {
                if consumes(*dag, z2, from) {
                    assert(reaches_within(*dag, from, z2, 1));
                    lemma_reach_le(*dag, from, z2, 1, k);
                } else {
                    let y = choose|y: int| #[trigger] consumes(*dag, z2, y) && reaches_within(*dag, from, y, k);
                    assert(0 <= y < n);
                    assert(marks@[y]);
                    assert(r@.contains(y as usize));
                    let i = choose|i: int| 0 <= i < r@.len() && r@[i] == y as usize;
                    assert(reaches_within(*dag, from, r@[i] as int, (k - 1) as nat));
                    assert(consumes(*dag, z2, y) && reaches_within(*dag, from, y, (k - 1) as nat));
                    assert(k >= 2);
                }
            }
        }
        reveal(reaches);
        assert forall|w: usize| r@.contains(w) <==> (w < n && reaches(*dag, from, w as int)) by {
            if w < n && reaches(*dag, from, w as int) {
                let m = choose|m: nat| reaches_within(*dag, from, w as int, m);
                lemma_reach_closed(*dag, from, k, w as int, m);
            }
        }
    }
    r
}

} // verus!
