use vstd::prelude::*;
use vstd::string::StringExecFns;

use crate::dag::{Execution, ExecutionDAGCallbacks, ExecutionDAGData, ExecutionUuid, FileUuid};
use crate::skip::{consumes, reaches, reaches_within};
use std::collections::HashSet;

verus! {

broadcast use vstd::std_specs::hash::group_hash_axioms;

/// Why a graph was rejected.
pub enum DAGError {
    MissingFile { uuid: FileUuid, description: String },
    MissingExecution { uuid: ExecutionUuid },
    CycleDetected { description: String },
    DuplicateExecutionUUID { uuid: ExecutionUuid },
    DuplicateFileUUID { uuid: FileUuid },
}

/// Position `k` of `s` repeats a value seen before it.
pub open spec fn dup_at(s: Seq<u128>, k: int) -> bool {
    0 <= k < s.len() && exists|j: int| 0 <= j < k && s[j] == s[k]
}

/// `k` is the first position of `s` that repeats an earlier value.
pub open spec fn first_dup_at(s: Seq<u128>, k: int) -> bool {
    dup_at(s, k) && forall|k2: int| 0 <= k2 < k ==> !dup_at(s, k2)
}

pub open spec fn has_dup(s: Seq<u128>) -> bool {
    exists|k: int| dup_at(s, k)
}

/// The outputs of the executions, in order.
pub open spec fn all_outputs(execs: Seq<Execution>) -> Seq<FileUuid>
    decreases execs.len(),
{
    if execs.len() == 0 {
        Seq::empty()
    } else {
        all_outputs(execs.drop_last()) + execs.last().outs()
    }
}

pub open spec fn dependency_note(desc: Seq<char>) -> Seq<char> {
    "Dependency of '"@ + desc + "'"@
}

pub open spec fn callback_note() -> Seq<char> {
    "File required by a callback"@
}

impl ExecutionDAGData {
    pub open spec fn exec_uuids(self) -> Seq<ExecutionUuid> {
        self.executions@.map_values(|e: Execution| e.uuid)
    }

    pub open spec fn provided_uuids(self) -> Seq<FileUuid> {
        self.provided_files@.map_values(|p: crate::dag::ProvidedFile| p.file.uuid)
    }

    /// Every file of the graph, once per producer: the outputs of the
    /// executions in order, then the provided files.
    pub open spec fn file_uuids(self) -> Seq<FileUuid> {
        all_outputs(self.executions@) + self.provided_uuids()
    }

    pub open spec fn is_known_file(self, f: FileUuid) -> bool {
        self.file_uuids().contains(f)
    }

    pub open spec fn is_provided(self, f: FileUuid) -> bool {
        self.provided_uuids().contains(f)
    }

    pub open spec fn produces(self, j: int, f: FileUuid) -> bool {
        0 <= j < self.executions@.len() && self.executions@[j].outs().contains(f)
    }

    /// Execution `i` can run after at most `n` rounds: each file it reads is
    /// provided or produced by an execution that can run within `n - 1`.
    pub open spec fn ready_within(self, i: int, n: nat) -> bool
        decreases n, 0nat,
    {
        if n == 0 {
            false
        } else {
            forall|k: int|
                0 <= k < self.executions@[i].deps().len() ==> self.file_ready_within(
                    #[trigger] self.executions@[i].deps()[k],
                    (n - 1) as nat,
                )
        }
    }

    pub open spec fn file_ready_within(self, f: FileUuid, n: nat) -> bool
        decreases n, 1nat,
    {
        self.is_provided(f) || exists|j: int| #[trigger]
            self.produces(j, f) && self.ready_within(j, n)
    }

    /// Execution `i` is eventually reached from the provided files.
    pub open spec fn resolvable(self, i: int) -> bool {
        exists|n: nat| self.ready_within(i, n)
    }

    pub open spec fn is_acyclic(self) -> bool {
        forall|i: int| 0 <= i < self.executions@.len() ==> self.resolvable(i)
    }

    /// `i` is the first execution that is never reached.
    pub open spec fn first_stuck(self, i: int) -> bool {
        &&& 0 <= i < self.executions@.len()
        &&& !self.resolvable(i)
        &&& forall|i2: int| 0 <= i2 < i ==> self.resolvable(i2)
    }

    /// Dependency `k` of execution `i` is produced by nothing.
    pub open spec fn missing_at(self, i: int, k: int) -> bool {
        &&& 0 <= i < self.executions@.len()
        &&& 0 <= k < self.executions@[i].deps().len()
        &&& !self.is_known_file(self.executions@[i].deps()[k])
    }

    pub open spec fn first_missing_at(self, i: int, k: int) -> bool {
        &&& self.missing_at(i, k)
        &&& forall|i2: int, k2: int|
            (i2 < i || (i2 == i && k2 < k)) ==> !#[trigger] self.missing_at(i2, k2)
    }

    pub open spec fn has_missing(self) -> bool {
        exists|i: int, k: int| self.missing_at(i, k)
    }

    pub open spec fn no_duplicates(self) -> bool {
        !has_dup(self.exec_uuids()) && !has_dup(self.file_uuids())
    }
}

impl ExecutionDAGCallbacks {
    pub open spec fn unknown_file_at(self, dag: ExecutionDAGData, k: int) -> bool {
        0 <= k < self.files@.len() && !dag.is_known_file(self.files@[k])
    }

    pub open spec fn unknown_exec_at(self, dag: ExecutionDAGData, k: int) -> bool {
        0 <= k < self.executions@.len() && !dag.exec_uuids().contains(self.executions@[k])
    }

    pub open spec fn all_known(self, dag: ExecutionDAGData) -> bool {
        &&& forall|k: int| !#[trigger] self.unknown_file_at(dag, k)
        &&& forall|k: int| !#[trigger] self.unknown_exec_at(dag, k)
    }
}

/// The graph holds no duplicate identifier, every file read is produced,
/// every execution is reached and every subscription names a known item.
pub open spec fn dag_is_valid(dag: ExecutionDAGData, cb: ExecutionDAGCallbacks) -> bool {
    &&& dag.no_duplicates()
    &&& !dag.has_missing()
    &&& dag.is_acyclic()
    &&& cb.all_known(dag)
}

/// What `check_dag` returns on a graph and its subscriptions: duplicate
/// executions are reported first, then duplicate files, then files that
/// nothing produces, then cycles, then unknown subscribed files and
/// executions; in each class the first offender in order is named.
pub open spec fn check_dag_outcome(
    dag: ExecutionDAGData,
    cb: ExecutionDAGCallbacks,
    r: Result<(), DAGError>,
) -> bool {
    match r {
        Ok(()) => dag_is_valid(dag, cb),
        Err(DAGError::DuplicateExecutionUUID { uuid }) => exists|k: int|
            first_dup_at(dag.exec_uuids(), k) && dag.exec_uuids()[k] == uuid,
        Err(DAGError::DuplicateFileUUID { uuid }) => {
            &&& !has_dup(dag.exec_uuids())
            &&& exists|k: int| first_dup_at(dag.file_uuids(), k) && dag.file_uuids()[k] == uuid
        },
        Err(DAGError::MissingFile { uuid, description }) => {
            &&& dag.no_duplicates()
            &&& {
                ||| exists|i: int, k: int|
                    dag.first_missing_at(i, k) && dag.executions@[i].deps()[k] == uuid
                        && description@ == dependency_note(dag.executions@[i].description@)
                ||| {
                    &&& !dag.has_missing()
                    &&& dag.is_acyclic()
                    &&& exists|k: int|
                        cb.unknown_file_at(dag, k) && (forall|k2: int|
                            0 <= k2 < k ==> !cb.unknown_file_at(dag, k2)) && cb.files@[k] == uuid
                    &&& description@ == callback_note()
                }
            }
        },
        Err(DAGError::CycleDetected { description }) => {
            &&& dag.no_duplicates()
            &&& !dag.has_missing()
            &&& exists|i: int|
                dag.first_stuck(i) && description@ == dag.executions@[i].description@
        },
        Err(DAGError::MissingExecution { uuid }) => {
            &&& dag.no_duplicates()
            &&& !dag.has_missing()
            &&& dag.is_acyclic()
            &&& forall|k: int| !#[trigger] cb.unknown_file_at(dag, k)
            &&& exists|k: int|
                cb.unknown_exec_at(dag, k) && (forall|k2: int|
                    0 <= k2 < k ==> !cb.unknown_exec_at(dag, k2)) && cb.executions@[k] == uuid
        },
    }
}

pub(crate) fn contains(v: &Vec<u128>, x: u128) -> (r: bool)
    ensures
        r == v@.contains(x),
{
    let mut i: usize = 0;
    while i < v.len()
        invariant
            i <= v.len(),
            forall|j: int| 0 <= j < i ==> v@[j] != x,
        decreases v.len() - i,
    {
        if v[i] == x {
            return true;
        }
        i += 1;
    }
    false
}

fn first_duplicate(v: &Vec<u128>) -> (r: Option<usize>)
    ensures
        match r {
            Some(k) => first_dup_at(v@, k as int),
            None => !has_dup(v@),
        },
{
    let mut seen: HashSet<u128> = HashSet::new();
    let mut k: usize = 0;
    while k < v.len()
        invariant
            k <= v.len(),
            seen@ == v@.take(k as int).to_set(),
            forall|k2: int| 0 <= k2 < k ==> !dup_at(v@, k2),
        decreases v.len() - k,
    {
        let ghost before = seen@;
        let fresh = seen.insert(v[k]);
        proof {
            assert(v@.take(k + 1) =~= v@.take(k as int).push(v@[k as int]));
            assert(v@.take(k + 1).to_set() =~= before.insert(v@[k as int])) by {
                assert forall|x: u128| v@.take(k + 1).to_set().contains(x) == before.insert(v@[k as int]).contains(x) by {
                    vstd::seq_lib::lemma_seq_contains_after_push(v@.take(k as int), v@[k as int], x);
                }
            }
            if dup_at(v@, k as int) {
                let j = choose|j: int| 0 <= j < k && v@[j] == v@[k as int];
                assert(v@.take(k as int)[j] == v@[k as int]);
            }
            if !fresh {
                let j = choose|j: int| 0 <= j < k && v@.take(k as int)[j] == v@[k as int];
                assert(v@[j] == v@[k as int]);
            }
        }
        if !fresh {
            return Some(k);
        }
        k += 1;
    }
    None
}

/// The values of `v`, in a set that answers membership in constant time.
fn value_set(v: &Vec<u128>) -> (r: HashSet<u128>)
    ensures
        r@ == v@.to_set(),
{
    let mut r: HashSet<u128> = HashSet::new();
    let mut k: usize = 0;
    while k < v.len()
        invariant
            k <= v.len(),
            r@ == v@.take(k as int).to_set(),
        decreases v.len() - k,
    {
        let ghost before = r@;
        r.insert(v[k]);
        proof {
            assert(v@.take(k + 1) =~= v@.take(k as int).push(v@[k as int]));
            assert forall|x: u128| v@.take(k + 1).to_set().contains(x) == r@.contains(x) by {
                vstd::seq_lib::lemma_seq_contains_after_push(v@.take(k as int), v@[k as int], x);
            }
            assert(v@.take(k + 1).to_set() =~= r@);
        }
        k += 1;
    }
    assert(v@.take(k as int) =~= v@);
    r
}

fn collect_exec_uuids(dag: &ExecutionDAGData) -> (r: Vec<ExecutionUuid>)
    ensures
        r@ == dag.exec_uuids(),
{
    let mut r: Vec<ExecutionUuid> = Vec::new();
    let mut i: usize = 0;
    while i < dag.executions.len()
        invariant
            i <= dag.executions.len(),
            r@ == dag.executions@.take(i as int).map_values(|e: Execution| e.uuid),
        decreases dag.executions.len() - i,
    {
        r.push(dag.executions[i].uuid);
        proof {
            assert(dag.executions@.take(i + 1).map_values(|e: Execution| e.uuid)
                =~= dag.executions@.take(i as int).map_values(|e: Execution| e.uuid).push(
                dag.executions@[i as int].uuid,
            ));
        }
        i += 1;
    }
    proof {
        assert(dag.executions@.take(i as int) =~= dag.executions@);
    }
    r
}

pub(crate) fn collect_provided_uuids(dag: &ExecutionDAGData) -> (r: Vec<FileUuid>)
    ensures
        r@ == dag.provided_uuids(),
{
    let mut r: Vec<FileUuid> = Vec::new();
    let mut i: usize = 0;
    while i < dag.provided_files.len()
        invariant
            i <= dag.provided_files.len(),
            r@ == dag.provided_files@.take(i as int).map_values(
                |p: crate::dag::ProvidedFile| p.file.uuid,
            ),
        decreases dag.provided_files.len() - i,
    {
        r.push(dag.provided_files[i].file.uuid);
        proof {
            assert(dag.provided_files@.take(i + 1).map_values(
                |p: crate::dag::ProvidedFile| p.file.uuid,
            ) =~= dag.provided_files@.take(i as int).map_values(
                |p: crate::dag::ProvidedFile| p.file.uuid,
            ).push(dag.provided_files@[i as int].file.uuid));
        }
        i += 1;
    }
    proof {
        assert(dag.provided_files@.take(i as int) =~= dag.provided_files@);
    }
    r
}

fn collect_file_uuids(dag: &ExecutionDAGData, provided: &Vec<FileUuid>) -> (r: Vec<FileUuid>)
    requires
        provided@ == dag.provided_uuids(),
    ensures
        r@ == dag.file_uuids(),
{
    let mut r: Vec<FileUuid> = Vec::new();
    let mut i: usize = 0;
    while i < dag.executions.len()
        invariant
            i <= dag.executions.len(),
            r@ == all_outputs(dag.executions@.take(i as int)),
        decreases dag.executions.len() - i,
    {
        let outs = dag.executions[i].output_files();
        let mut j: usize = 0;
        while j < outs.len()
            invariant
                i < dag.executions.len(),
                j <= outs.len(),
                outs@ == dag.executions@[i as int].outs(),
                r@ == all_outputs(dag.executions@.take(i as int)) + outs@.take(j as int),
            decreases outs.len() - j,
        {
            r.push(outs[j]);
            proof {
                assert(outs@.take(j + 1) =~= outs@.take(j as int).push(outs@[j as int]));
            }
            j += 1;
        }
        proof {
            assert(outs@.take(j as int) =~= outs@);
            assert(dag.executions@.take(i + 1).drop_last() =~= dag.executions@.take(i as int));
        }
        i += 1;
    }
    proof {
        assert(dag.executions@.take(i as int) =~= dag.executions@);
    }
    let mut k: usize = 0;
    let ghost head = r@;
    while k < provided.len()
        invariant
            k <= provided.len(),
            r@ == head + provided@.take(k as int),
        decreases provided.len() - k,
    {
        r.push(provided[k]);
        proof {
            assert(provided@.take(k + 1) =~= provided@.take(k as int).push(provided@[k as int]));
        }
        k += 1;
    }
    proof {
        assert(provided@.take(k as int) =~= provided@);
    }
    r
}


/// Every file that execution `i` reads is provided or produced by an
/// execution marked in `done`.
pub open spec fn deps_available(dag: ExecutionDAGData, done: Seq<bool>, i: int) -> bool {
    forall|k: int|
        0 <= k < dag.executions@[i].deps().len() ==> #[trigger] file_available(
            dag,
            done,
            dag.executions@[i].deps()[k],
        )
}

pub open spec fn file_available(dag: ExecutionDAGData, done: Seq<bool>, f: FileUuid) -> bool {
    dag.is_provided(f) || exists|j: int| 0 <= j < done.len() && done[j] && #[trigger] dag.produces(j, f)
}

/// No unmarked execution has all its files available.
pub open spec fn is_closed(dag: ExecutionDAGData, done: Seq<bool>) -> bool {
    forall|i: int| 0 <= i < done.len() && !done[i] ==> !#[trigger] deps_available(dag, done, i)
}

pub open spec fn count_true(s: Seq<bool>) -> nat
    decreases s.len(),
{
    if s.len() == 0 {
        0
    } else {
        count_true(s.drop_last()) + if s.last() {
            1nat
        } else {
            0nat
        }
    }
}

pub(crate) proof fn lemma_count_le(s: Seq<bool>)
    ensures
        count_true(s) <= s.len(),
    decreases s.len(),
{
    if s.len() > 0 {
        lemma_count_le(s.drop_last());
    }
}

pub(crate) proof fn lemma_count_set(s: Seq<bool>, i: int)
    requires
        0 <= i < s.len(),
        !s[i],
    ensures
        count_true(s.update(i, true)) == count_true(s) + 1,
    decreases s.len(),
{
    if i == s.len() - 1 {
        assert(s.update(i, true).drop_last() =~= s.drop_last());
    } else {
        lemma_count_set(s.drop_last(), i);
        assert(s.update(i, true).drop_last() =~= s.drop_last().update(i, true));
    }
}

proof fn lemma_ready_monotone(dag: ExecutionDAGData, i: int, n: nat)
    requires
        dag.ready_within(i, n),
    ensures
        dag.ready_within(i, n + 1),
    decreases n,
{
    let deps = dag.executions@[i].deps();
    assert forall|k: int| 0 <= k < deps.len() implies dag.file_ready_within(
        #[trigger] deps[k],
        n,
    ) by {
        assert(dag.file_ready_within(deps[k], (n - 1) as nat));
        if !dag.is_provided(deps[k]) {
            let j = choose|j: int| #[trigger]
                dag.produces(j, deps[k]) && dag.ready_within(j, (n - 1) as nat);
            lemma_ready_monotone(dag, j, (n - 1) as nat);
            assert(dag.produces(j, deps[k]) && dag.ready_within(j, n));
        }
    }
}

proof fn lemma_closed_complete(dag: ExecutionDAGData, done: Seq<bool>, i: int, n: nat)
    requires
        done.len() == dag.executions@.len(),
        is_closed(dag, done),
        0 <= i < done.len(),
        dag.ready_within(i, n),
    ensures
        done[i],
    decreases n,
{
    let deps = dag.executions@[i].deps();
    assert forall|k: int| 0 <= k < deps.len() implies #[trigger] file_available(
        dag,
        done,
        deps[k],
    ) by {
        assert(dag.file_ready_within(deps[k], (n - 1) as nat));
        if !dag.is_provided(deps[k]) {
            let j = choose|j: int| #[trigger]
                dag.produces(j, deps[k]) && dag.ready_within(j, (n - 1) as nat);
            lemma_closed_complete(dag, done, j, (n - 1) as nat);
        }
    }
    assert(deps_available(dag, done, i));
}

fn file_available_exec(
    dag: &ExecutionDAGData,
    provided: &Vec<FileUuid>,
    done: &Vec<bool>,
    f: FileUuid,
) -> (r: bool)
    requires
        provided@ == dag.provided_uuids(),
        done.len() == dag.executions.len(),
    ensures
        r == file_available(*dag, done@, f),
{
    if contains(provided, f) {
        return true;
    }
    let mut j: usize = 0;
    while j < dag.executions.len()
        invariant
            done.len() == dag.executions.len(),
            j <= dag.executions.len(),
            forall|j2: int| 0 <= j2 < j ==> !(done@[j2] && #[trigger] dag.produces(j2, f)),
        decreases dag.executions.len() - j,
    {
        if done[j] {
            let outs = dag.executions[j].output_files();
            if contains(&outs, f) {
                assert(dag.produces(j as int, f));
                return true;
            }
        }
        j += 1;
    }
    false
}

pub(crate) fn deps_available_exec(
    dag: &ExecutionDAGData,
    provided: &Vec<FileUuid>,
    done: &Vec<bool>,
    i: usize,
) -> (r: bool)
    requires
        provided@ == dag.provided_uuids(),
        done.len() == dag.executions.len(),
        i < dag.executions.len(),
    ensures
        r == deps_available(*dag, done@, i as int),
{
    let deps = dag.executions[i].dependencies();
    let mut k: usize = 0;
    while k < deps.len()
        invariant
            provided@ == dag.provided_uuids(),
            done.len() == dag.executions.len(),
            i < dag.executions.len(),
            deps@ == dag.executions@[i as int].deps(),
            k <= deps.len(),
            forall|k2: int| 0 <= k2 < k ==> #[trigger] file_available(*dag, done@, deps@[k2]),
        decreases deps.len() - k,
    {
        if !file_available_exec(dag, provided, done, deps[k]) {
            return false;
        }
        k += 1;
    }
    true
}

/// Marks the executions that are reached from the provided files: repeats
/// rounds over all executions until a round marks none.
fn resolve(dag: &ExecutionDAGData, provided: &Vec<FileUuid>) -> (done: Vec<bool>)
    requires
        provided@ == dag.provided_uuids(),
    ensures
        done.len() == dag.executions.len(),
        forall|i: int| 0 <= i < done.len() ==> (done@[i] <==> dag.resolvable(i)),
{
    let n = dag.executions.len();
    let mut done: Vec<bool> = Vec::new();
    let mut i: usize = 0;
    while i < n
        invariant
            i <= n,
            done.len() == i,
            forall|j: int| 0 <= j < i ==> !done@[j],
        decreases n - i,
    {
        done.push(false);
        i += 1;
    }
    let ghost mut bound: nat = 0;
    let mut changed = true;
    proof {
        lemma_count_le(done@);
    }
    while changed
        invariant
            n == dag.executions.len(),
            provided@ == dag.provided_uuids(),
            done.len() == n,
            count_true(done@) <= n,
            forall|j: int| 0 <= j < n && #[trigger] done@[j] ==> dag.ready_within(j, bound),
            !changed ==> is_closed(*dag, done@),
        decreases 2 * (n - count_true(done@)) + if changed {
            1int
        } else {
            0int
        },
    {
        changed = false;
        let ghost start = done@;
        let mut i: usize = 0;
        while i < n
            invariant
                n == dag.executions.len(),
                provided@ == dag.provided_uuids(),
                done.len() == n,
                i <= n,
                count_true(done@) <= n,
                count_true(done@) >= count_true(start),
                changed ==> count_true(done@) > count_true(start),
                !changed ==> done@ == start,
                !changed ==> forall|i2: int|
                    0 <= i2 < i && !done@[i2] ==> !#[trigger] deps_available(*dag, done@, i2),
                forall|j: int| 0 <= j < n && #[trigger] done@[j] ==> dag.ready_within(j, bound),
            decreases n - i,
        {
            if !done[i] && deps_available_exec(dag, provided, &done, i) {
                proof {
                    let deps = dag.executions@[i as int].deps();
                    assert forall|k: int| 0 <= k < deps.len() implies dag.file_ready_within(
                        #[trigger] deps[k],
                        bound,
                    ) by {
                        assert(file_available(*dag, done@, deps[k]));
                        if !dag.is_provided(deps[k]) {
                            let j = choose|j: int|
                                0 <= j < done@.len() && done@[j] && #[trigger] dag.produces(j, deps[k]);
                            assert(dag.produces(j, deps[k]) && dag.ready_within(j, bound));
                        }
                    }
                    assert(dag.ready_within(i as int, bound + 1));
                    assert forall|j: int| 0 <= j < n && #[trigger] done@[j] implies dag.ready_within(
                        j,
                        bound + 1,
                    ) by {
                        lemma_ready_monotone(*dag, j, bound);
                    }
                    lemma_count_set(done@, i as int);
                    lemma_count_le(done@.update(i as int, true));
                    bound = bound + 1;
                }
                done.set(i, true);
                changed = true;
            }
            i += 1;
        }
    }
    proof {
        assert forall|i: int| 0 <= i < n implies (done@[i] <==> dag.resolvable(i)) by {
            if done@[i] {
                assert(dag.ready_within(i, bound));
            }
            if dag.resolvable(i) {
                let m = choose|m: nat| dag.ready_within(i, m);
                lemma_closed_complete(*dag, done@, i, m);
            }
        }
    }
    done
}


/// Two results of `check_dag` name the same error kind with the same
/// identifier and note, or are both success.
pub open spec fn same_verdict(a: Result<(), DAGError>, b: Result<(), DAGError>) -> bool {
    match (a, b) {
        (Ok(()), Ok(())) => true,
        (
            Err(DAGError::DuplicateExecutionUUID { uuid: x }),
            Err(DAGError::DuplicateExecutionUUID { uuid: y }),
        ) => x == y,
        (
            Err(DAGError::DuplicateFileUUID { uuid: x }),
            Err(DAGError::DuplicateFileUUID { uuid: y }),
        ) => x == y,
        (
            Err(DAGError::MissingFile { uuid: x, description: d }),
            Err(DAGError::MissingFile { uuid: y, description: e }),
        ) => x == y && d@ == e@,
        (
            Err(DAGError::CycleDetected { description: d }),
            Err(DAGError::CycleDetected { description: e }),
        ) => d@ == e@,
        (
            Err(DAGError::MissingExecution { uuid: x }),
            Err(DAGError::MissingExecution { uuid: y }),
        ) => x == y,
        _ => false,
    }
}

/// Validation is deterministic: on the same graph and subscriptions every
/// result that `check_dag` may return names the same error kind, with the
/// same identifier, or is success.
pub proof fn lemma_check_dag_deterministic(
    dag: ExecutionDAGData,
    cb: ExecutionDAGCallbacks,
    a: Result<(), DAGError>,
    b: Result<(), DAGError>,
)
    requires
        check_dag_outcome(dag, cb, a),
        check_dag_outcome(dag, cb, b),
    ensures
        same_verdict(a, b),
{
    assert forall|s: Seq<u128>, k1: int, k2: int|
        first_dup_at(s, k1) && first_dup_at(s, k2) implies k1 == k2 by {
        if k1 < k2 {
            assert(!dup_at(s, k1));
        } else if k2 < k1 {
            assert(!dup_at(s, k2));
        }
    }
    assert forall|i1: int, k1: int, i2: int, k2: int|
        dag.first_missing_at(i1, k1) && dag.first_missing_at(i2, k2) implies i1 == i2 && k1
        == k2 by {
        if i1 < i2 || (i1 == i2 && k1 < k2) {
            assert(!dag.missing_at(i1, k1));
        } else if i2 < i1 || (i1 == i2 && k2 < k1) {
            assert(!dag.missing_at(i2, k2));
        }
    }
    assert forall|i1: int, i2: int| dag.first_stuck(i1) && dag.first_stuck(i2) implies i1
        == i2 by {
        if i1 < i2 {
            assert(dag.resolvable(i1));
        } else if i2 < i1 {
            assert(dag.resolvable(i2));
        }
    }
    assert forall|k1: int, k2: int|
        cb.unknown_file_at(dag, k1) && (forall|k: int| 0 <= k < k1 ==> !cb.unknown_file_at(dag, k))
            && cb.unknown_file_at(dag, k2) && (forall|k: int|
            0 <= k < k2 ==> !cb.unknown_file_at(dag, k)) implies k1 == k2 by {
        if k1 < k2 {
            assert(!cb.unknown_file_at(dag, k1));
        } else if k2 < k1 {
            assert(!cb.unknown_file_at(dag, k2));
        }
    }
    assert forall|k1: int, k2: int|
        cb.unknown_exec_at(dag, k1) && (forall|k: int| 0 <= k < k1 ==> !cb.unknown_exec_at(dag, k))
            && cb.unknown_exec_at(dag, k2) && (forall|k: int|
            0 <= k < k2 ==> !cb.unknown_exec_at(dag, k)) implies k1 == k2 by {
        if k1 < k2 {
            assert(!cb.unknown_exec_at(dag, k1));
        } else if k2 < k1 {
            assert(!cb.unknown_exec_at(dag, k2));
        }
    }
}

/// `c` lists executions that form a cycle: each reads a file that the next
/// one, cyclically, produces.
pub open spec fn is_cycle(dag: ExecutionDAGData, c: Seq<int>) -> bool {
    &&& c.len() > 0
    &&& forall|t: int| 0 <= t < c.len() ==> 0 <= #[trigger] c[t] < dag.executions@.len()
    &&& forall|t: int| 0 <= t < c.len() ==> #[trigger] cycle_link(dag, c, t)
}

/// Execution `c[t]` reads a file that the next execution of `c`,
/// cyclically, produces.
pub open spec fn cycle_link(dag: ExecutionDAGData, c: Seq<int>, t: int) -> bool {
    exists|k: int|
        0 <= k < dag.executions@[c[t]].deps().len() && dag.produces(
            if t + 1 < c.len() {
                c[t + 1]
            } else {
                c[0]
            },
            #[trigger] dag.executions@[c[t]].deps()[k],
        )
}

proof fn lemma_outputs_prefix(s: Seq<Execution>, j: int)
    requires
        0 <= j <= s.len(),
    ensures
        all_outputs(s.take(j)).len() <= all_outputs(s).len(),
        forall|p: int|
            0 <= p < all_outputs(s.take(j)).len() ==> all_outputs(s)[p] == all_outputs(
                s.take(j),
            )[p],
    decreases s.len(),
{
    if j == s.len() {
        assert(s.take(j) =~= s);
    } else {
        lemma_outputs_prefix(s.drop_last(), j);
        assert(s.drop_last().take(j) =~= s.take(j));
    }
}

proof fn lemma_outputs_step(s: Seq<Execution>, j: int)
    requires
        0 <= j < s.len(),
    ensures
        all_outputs(s.take(j + 1)) == all_outputs(s.take(j)) + s[j].outs(),
{
    assert(s.take(j + 1).drop_last() =~= s.take(j));
}

/// Where the files of execution `j` stand among all outputs.
proof fn lemma_output_position(s: Seq<Execution>, j: int, f: FileUuid) -> (p: int)
    requires
        0 <= j < s.len(),
        s[j].outs().contains(f),
    ensures
        all_outputs(s.take(j)).len() <= p < all_outputs(s.take(j + 1)).len(),
        p < all_outputs(s).len(),
        all_outputs(s)[p] == f,
{
    let m = choose|m: int| 0 <= m < s[j].outs().len() && s[j].outs()[m] == f;
    lemma_outputs_step(s, j);
    lemma_outputs_prefix(s, j + 1);
    all_outputs(s.take(j)).len() + m
}

/// With no duplicate file identifier, a file has one producer, and a
/// produced file is not provided.
pub(crate) proof fn lemma_single_producer(dag: ExecutionDAGData, j1: int, j2: int, f: FileUuid)
    requires
        !has_dup(dag.file_uuids()),
        dag.produces(j1, f),
    ensures
        dag.produces(j2, f) ==> j1 == j2,
        !dag.is_provided(f),
{
    let s = dag.executions@;
    let fu = dag.file_uuids();
    let p1 = lemma_output_position(s, j1, f);
    assert(fu[p1] == f);
    if dag.produces(j2, f) && j1 != j2 {
        let p2 = lemma_output_position(s, j2, f);
        assert(fu[p2] == f);
        if j1 < j2 {
            lemma_outputs_prefix(s.take(j2), j1 + 1);
            assert(s.take(j2).take(j1 + 1) =~= s.take(j1 + 1));
            assert(dup_at(fu, p2));
        } else {
            lemma_outputs_prefix(s.take(j1), j2 + 1);
            assert(s.take(j1).take(j2 + 1) =~= s.take(j2 + 1));
            assert(dup_at(fu, p1));
        }
    }
    if dag.is_provided(f) {
        let q = choose|q: int| 0 <= q < dag.provided_uuids().len() && dag.provided_uuids()[q] == f;
        let pq = all_outputs(s).len() + q;
        assert(fu[pq] == f);
        assert(dup_at(fu, pq));
    }
}

proof fn lemma_cycle_never_ready(dag: ExecutionDAGData, c: Seq<int>, n: nat)
    requires
        !has_dup(dag.file_uuids()),
        is_cycle(dag, c),
    ensures
        forall|t: int| 0 <= t < c.len() ==> !dag.ready_within(#[trigger] c[t], n),
    decreases n,
{
    if n > 0 {
        lemma_cycle_never_ready(dag, c, (n - 1) as nat);
        assert forall|t: int| 0 <= t < c.len() implies !dag.ready_within(#[trigger] c[t], n) by {
            let next = if t + 1 < c.len() {
                c[t + 1]
            } else {
                c[0]
            };
            let deps = dag.executions@[c[t]].deps();
            assert(cycle_link(dag, c, t));
            let k = choose|k: int| 0 <= k < deps.len() && dag.produces(next, deps[k]);
            let f = deps[k];
            lemma_single_producer(dag, next, next, f);
            if dag.ready_within(c[t], n) {
                assert(dag.file_ready_within(f, (n - 1) as nat));
                let j = choose|j: int| #[trigger]
                    dag.produces(j, f) && dag.ready_within(j, (n - 1) as nat);
                lemma_single_producer(dag, next, j, f);
                if t + 1 < c.len() {
                    assert(!dag.ready_within(c[t + 1], (n - 1) as nat));
                } else {
                    assert(!dag.ready_within(c[0], (n - 1) as nat));
                }
            }
        }
    }
}

/// A well-formed graph with valid subscriptions is accepted.
pub proof fn lemma_valid_dag_accepted(
    dag: ExecutionDAGData,
    cb: ExecutionDAGCallbacks,
    r: Result<(), DAGError>,
)
    requires
        check_dag_outcome(dag, cb, r),
        dag_is_valid(dag, cb),
    ensures
        r is Ok,
{
}

/// A graph without duplicate identifiers in which some execution reads a
/// file that nothing produces is rejected with `MissingFile`.
pub proof fn lemma_missing_file_rejected(
    dag: ExecutionDAGData,
    cb: ExecutionDAGCallbacks,
    r: Result<(), DAGError>,
)
    requires
        check_dag_outcome(dag, cb, r),
        dag.no_duplicates(),
        dag.has_missing(),
    ensures
        r is Err && r->Err_0 is MissingFile,
{
}

/// A graph without duplicate identifiers or unproduced files whose
/// executions form a cycle is rejected with `CycleDetected`.
pub proof fn lemma_cycle_rejected(
    dag: ExecutionDAGData,
    cb: ExecutionDAGCallbacks,
    r: Result<(), DAGError>,
    c: Seq<int>,
)
    requires
        check_dag_outcome(dag, cb, r),
        dag.no_duplicates(),
        !dag.has_missing(),
        is_cycle(dag, c),
    ensures
        r is Err && r->Err_0 is CycleDetected,
{
    assert(!dag.resolvable(c[0])) by {
        if dag.resolvable(c[0]) {
            let n = choose|n: nat| dag.ready_within(c[0], n);
            lemma_cycle_never_ready(dag, c, n);
        }
    }
    assert(!dag.is_acyclic());
}

proof fn lemma_file_ready_monotone(dag: ExecutionDAGData, f: FileUuid, n: nat, m: nat)
    requires
        dag.file_ready_within(f, n),
        n <= m,
    ensures
        dag.file_ready_within(f, m),
    decreases m - n,
{
    if n < m {
        if !dag.is_provided(f) {
            let j = choose|j: int| #[trigger] dag.produces(j, f) && dag.ready_within(j, n);
            lemma_ready_monotone(dag, j, n);
            assert(dag.produces(j, f) && dag.ready_within(j, n + 1));
        }
        lemma_file_ready_monotone(dag, f, n + 1, m);
    }
}

spec fn file_eventually_ready(dag: ExecutionDAGData, f: FileUuid) -> bool {
    exists|n: nat| #[trigger] dag.file_ready_within(f, n)
}

/// One round count by which the first `k` files that execution `i` reads
/// are all ready, when each of them is ready within some count.
proof fn lemma_deps_bound(dag: ExecutionDAGData, i: int, k: int) -> (bound: nat)
    requires
        0 <= k <= dag.executions@[i].deps().len(),
        forall|k2: int|
            0 <= k2 < dag.executions@[i].deps().len() ==> file_eventually_ready(
                dag,
                #[trigger] dag.executions@[i].deps()[k2],
            ),
    ensures
        forall|k2: int|
            0 <= k2 < k ==> dag.file_ready_within(#[trigger] dag.executions@[i].deps()[k2], bound),
    decreases k,
{
    let deps = dag.executions@[i].deps();
    if k == 0 {
        0
    } else {
        let b = lemma_deps_bound(dag, i, k - 1);
        assert(file_eventually_ready(dag, deps[k - 1]));
        let n = choose|n: nat| #[trigger] dag.file_ready_within(deps[k - 1], n);
        let m = if b < n {
            n
        } else {
            b
        };
        assert forall|k2: int| 0 <= k2 < k implies dag.file_ready_within(#[trigger] deps[k2], m) by {
            if k2 < k - 1 {
                lemma_file_ready_monotone(dag, deps[k2], b, m);
            } else {
                lemma_file_ready_monotone(dag, deps[k2], n, m);
            }
        }
        m
    }
}

proof fn lemma_output_producer(s: Seq<Execution>, f: FileUuid) -> (j: int)
    requires
        all_outputs(s).contains(f),
    ensures
        0 <= j < s.len(),
        s[j].outs().contains(f),
    decreases s.len(),
{
    let p = choose|p: int| 0 <= p < all_outputs(s).len() && all_outputs(s)[p] == f;
    let head = all_outputs(s.drop_last());
    if p < head.len() {
        assert(head[p] == f);
        let j = lemma_output_producer(s.drop_last(), f);
        assert(s[j] == s.drop_last()[j]);
        j
    } else {
        assert(s.last().outs()[p - head.len()] == f);
        (s.len() - 1) as int
    }
}

/// An execution that is never reached, in a graph where every file read is
/// produced, reads a file whose producer is never reached either.
proof fn lemma_stuck_step(dag: ExecutionDAGData, i: int)
    requires
        !dag.has_missing(),
        0 <= i < dag.executions@.len(),
        !dag.resolvable(i),
    ensures
        exists|j: int| #[trigger] feeds_stuck(dag, i, j),
{
    let deps = dag.executions@[i].deps();
    if !(exists|j: int| #[trigger] feeds_stuck(dag, i, j)) {
        assert forall|k: int| 0 <= k < deps.len() implies file_eventually_ready(
            dag,
            #[trigger] deps[k],
        ) by {
            let f = deps[k];
            assert(!dag.missing_at(i, k));
            if dag.is_provided(f) {
                assert(dag.file_ready_within(f, 0));
            } else {
                let fu = dag.file_uuids();
                let p = choose|p: int| 0 <= p < fu.len() && fu[p] == f;
                let outs = all_outputs(dag.executions@);
                if p >= outs.len() {
                    assert(dag.provided_uuids()[p - outs.len()] == f);
                }
                assert(outs[p] == f);
                let j = lemma_output_producer(dag.executions@, f);
                assert(dag.produces(j, f));
                if !dag.resolvable(j) {
                    assert(feeds_stuck(dag, i, j));
                }
                let n = choose|n: nat| dag.ready_within(j, n);
                assert(dag.file_ready_within(f, n));
            }
        }
        let b = lemma_deps_bound(dag, i, deps.len() as int);
        assert(dag.ready_within(i, b + 1));
    }
}

/// Execution `i` reads a file that execution `j` produces, and `j` is
/// never reached.
spec fn feeds_stuck(dag: ExecutionDAGData, i: int, j: int) -> bool {
    !dag.resolvable(j) && exists|k: int|
        0 <= k < dag.executions@[i].deps().len() && #[trigger] dag.produces(
            j,
            dag.executions@[i].deps()[k],
        )
}

spec fn next_stuck(dag: ExecutionDAGData, i: int) -> int {
    choose|j: int| #[trigger] feeds_stuck(dag, i, j)
}

spec fn stuck_chain(dag: ExecutionDAGData, i0: int, t: nat) -> int
    decreases t,
{
    if t == 0 {
        i0
    } else {
        next_stuck(dag, stuck_chain(dag, i0, (t - 1) as nat))
    }
}

proof fn lemma_stuck_chain(dag: ExecutionDAGData, i0: int, t: nat)
    requires
        !dag.has_missing(),
        0 <= i0 < dag.executions@.len(),
        !dag.resolvable(i0),
    ensures
        0 <= stuck_chain(dag, i0, t) < dag.executions@.len(),
        !dag.resolvable(stuck_chain(dag, i0, t)),
        feeds_stuck(dag, stuck_chain(dag, i0, t), stuck_chain(dag, i0, t + 1)),
    decreases t,
{
    if t > 0 {
        lemma_stuck_chain(dag, i0, (t - 1) as nat);
        assert(stuck_chain(dag, i0, t) == next_stuck(dag, stuck_chain(dag, i0, (t - 1) as nat)));
        let kk = choose|k: int|
            0 <= k < dag.executions@[stuck_chain(dag, i0, (t - 1) as nat)].deps().len()
                && #[trigger] dag.produces(
                stuck_chain(dag, i0, t),
                dag.executions@[stuck_chain(dag, i0, (t - 1) as nat)].deps()[k],
            );
    }
    let c = stuck_chain(dag, i0, t);
    lemma_stuck_step(dag, c);
    assert(stuck_chain(dag, i0, t + 1) == next_stuck(dag, c));
    assert(feeds_stuck(dag, c, next_stuck(dag, c)));
}

/// Following, from an execution that is never reached, a file whose
/// producer is never reached either leads into a cycle: `c` is that cycle and
/// it starts at the `a`-th execution of the walk.
proof fn lemma_stuck_cycle(dag: ExecutionDAGData, i0: int) -> (ca: (Seq<int>, nat))
    requires
        !dag.has_missing(),
        0 <= i0 < dag.executions@.len(),
        !dag.resolvable(i0),
    ensures
        is_cycle(dag, ca.0),
        ca.0[0] == stuck_chain(dag, i0, ca.1),
{
    let n = dag.executions@.len();
    let c = Seq::new((n + 1) as nat, |t: int| stuck_chain(dag, i0, t as nat));
    assert forall|t: int| 0 <= t < c.len() implies 0 <= #[trigger] c[t] < n by {
        lemma_stuck_chain(dag, i0, t as nat);
    }
    if c.no_duplicates() {
        c.unique_seq_to_set();
        vstd::set_lib::lemma_int_range(0, n as int);
        assert(c.to_set().subset_of(vstd::set_lib::set_int_range(0, n as int)));
        vstd::set_lib::lemma_len_subset(c.to_set(), vstd::set_lib::set_int_range(0, n as int));
    }
    assert(!c.no_duplicates());
    assert(exists|t1: int, t2: int|
        0 <= t1 < c.len() && 0 <= t2 < c.len() && t1 != t2 && c[t1] == c[t2]);
    let (t1, t2) = choose|t1: int, t2: int|
        0 <= t1 < c.len() && 0 <= t2 < c.len() && t1 != t2 && c[t1] == c[t2];
    let (a, b) = if t1 < t2 {
        (t1, t2)
    } else {
        (t2, t1)
    };
    let cyc = c.subrange(a, b);
    assert(cyc.len() > 0);
    assert forall|t: int| 0 <= t < cyc.len() implies 0 <= #[trigger] cyc[t] < n by {
        assert(cyc[t] == c[a + t]);
    }
    assert forall|t: int| 0 <= t < cyc.len() implies #[trigger] cycle_link(dag, cyc, t) by {
        lemma_stuck_chain(dag, i0, (a + t) as nat);
        assert(cyc[t] == stuck_chain(dag, i0, (a + t) as nat));
        let nx = if t + 1 < cyc.len() {
            cyc[t + 1]
        } else {
            cyc[0]
        };
        if t + 1 < cyc.len() {
            assert(cyc[t + 1] == stuck_chain(dag, i0, (a + t + 1) as nat));
        } else {
            assert(cyc[0] == c[a]);
            assert(c[b] == stuck_chain(dag, i0, (a + t + 1) as nat));
        }
        assert(nx == stuck_chain(dag, i0, (a + t + 1) as nat));
        assert(feeds_stuck(dag, cyc[t], nx));
        let k = choose|k: int|
            0 <= k < dag.executions@[cyc[t]].deps().len() && #[trigger] dag.produces(
                nx,
                dag.executions@[cyc[t]].deps()[k],
            );
    }
    assert(is_cycle(dag, cyc));
    assert(cyc[0] == c[a]);
    (cyc, a as nat)
}

/// A graph with no duplicate identifier, no unproduced file and no cycle
/// has every execution reached from the provided files.
pub proof fn lemma_no_cycle_is_acyclic(dag: ExecutionDAGData)
    requires
        dag.no_duplicates(),
        !dag.has_missing(),
        forall|c: Seq<int>| !is_cycle(dag, c),
    ensures
        dag.is_acyclic(),
{
    let n = dag.executions@.len();
    if !dag.is_acyclic() {
        let i0 = choose|i: int| 0 <= i < n && !dag.resolvable(i);
        let (c, a) = lemma_stuck_cycle(dag, i0);
        assert(is_cycle(dag, c));
    }
}

proof fn lemma_chain_reaches(dag: ExecutionDAGData, i0: int, a: nat, t: nat)
    requires
        !dag.has_missing(),
        0 <= i0 < dag.executions@.len(),
        !dag.resolvable(i0),
        t < a,
    ensures
        reaches_within(dag, stuck_chain(dag, i0, a), stuck_chain(dag, i0, t), (a - t) as nat),
    decreases a - t,
{
    lemma_stuck_chain(dag, i0, t);
    let x = stuck_chain(dag, i0, t);
    let y = stuck_chain(dag, i0, t + 1);
    let k = choose|k: int|
        0 <= k < dag.executions@[x].deps().len() && #[trigger] dag.produces(
            y,
            dag.executions@[x].deps()[k],
        );
    assert(consumes(dag, x, y));
    if t + 1 < a {
        lemma_chain_reaches(dag, i0, a, t + 1);
        assert(consumes(dag, x, y) && reaches_within(
            dag,
            stuck_chain(dag, i0, a),
            y,
            (a - t - 1) as nat,
        ));
    }
}

/// In a graph where every file read is produced, an execution that is never
/// reached from the provided files lies on a cycle, or depends through the
/// files it reads on an execution of one.
pub proof fn lemma_stuck_depends_on_cycle(dag: ExecutionDAGData, i: int)
    requires
        !dag.has_missing(),
        0 <= i < dag.executions@.len(),
        !dag.resolvable(i),
    ensures
        exists|c: Seq<int>| is_cycle(dag, c) && (c[0] == i || reaches(dag, c[0], i)),
{
    let (c, a) = lemma_stuck_cycle(dag, i);
    if a > 0 {
        lemma_chain_reaches(dag, i, a, 0);
        reveal(reaches);
        assert(reaches(dag, c[0], i));
    }
    assert(is_cycle(dag, c) && (c[0] == i || reaches(dag, c[0], i)));
}

/// A graph with no duplicate identifier, no unproduced file and no cycle,
/// whose subscriptions name known items, is accepted.
pub proof fn lemma_sound_dag_accepted(
    dag: ExecutionDAGData,
    cb: ExecutionDAGCallbacks,
    r: Result<(), DAGError>,
)
    requires
        check_dag_outcome(dag, cb, r),
        dag.no_duplicates(),
        !dag.has_missing(),
        forall|c: Seq<int>| !is_cycle(dag, c),
        cb.all_known(dag),
    ensures
        r is Ok,
{
    lemma_no_cycle_is_acyclic(dag);
}

/// The note attached to a file that execution `desc` reads and nothing
/// produces.
fn dependency_message(desc: &String) -> (r: String)
    ensures
        r@ == dependency_note(desc@),
{
    let mut r = String::from_str("Dependency of '");
    r.append(desc.as_str());
    r.append("'");
    r
}

/// Validates a graph and its subscriptions: no duplicate identifiers, every
/// file read is produced, no cycles, every subscription names a known item.
pub fn check_dag(dag: &ExecutionDAGData, callbacks: &ExecutionDAGCallbacks) -> (r: Result<
    (),
    DAGError,
>)
    ensures
        check_dag_outcome(*dag, *callbacks, r),
{
    let exec_ids = collect_exec_uuids(dag);
    match first_duplicate(&exec_ids) {
        Some(k) => {
            return Err(DAGError::DuplicateExecutionUUID { uuid: exec_ids[k] });
        },
        None => {},
    }
    let provided = collect_provided_uuids(dag);
    let files = collect_file_uuids(dag, &provided);
    let file_set = value_set(&files);
    let exec_set = value_set(&exec_ids);
    match first_duplicate(&files) {
        Some(k) => {
            return Err(DAGError::DuplicateFileUUID { uuid: files[k] });
        },
        None => {},
    }
    let mut i: usize = 0;
    while i < dag.executions.len()
        invariant
            i <= dag.executions.len(),
            files@ == dag.file_uuids(),
            file_set@ == files@.to_set(),
            dag.no_duplicates(),
            forall|i2: int, k2: int| i2 < i ==> !#[trigger] dag.missing_at(i2, k2),
        decreases dag.executions.len() - i,
    {
        let deps = dag.executions[i].dependencies();
        let mut k: usize = 0;
        while k < deps.len()
            invariant
                i < dag.executions.len(),
                k <= deps.len(),
                deps@ == dag.executions@[i as int].deps(),
                files@ == dag.file_uuids(),
            file_set@ == files@.to_set(),
                dag.no_duplicates(),
                forall|i2: int, k2: int|
                    (i2 < i || (i2 == i && k2 < k)) ==> !#[trigger] dag.missing_at(i2, k2),
            decreases deps.len() - k,
        {
            if !file_set.contains(&deps[k]) {
                let description = dependency_message(&dag.executions[i].description);
                assert(dag.first_missing_at(i as int, k as int));
                return Err(DAGError::MissingFile { uuid: deps[k], description });
            }
            k += 1;
        }
        i += 1;
    }
    assert(!dag.has_missing());
    let done = resolve(dag, &provided);
    let mut i: usize = 0;
    while i < done.len()
        invariant
            i <= done.len(),
            done.len() == dag.executions.len(),
            dag.no_duplicates(),
            !dag.has_missing(),
            forall|j: int| 0 <= j < done.len() ==> (done@[j] <==> dag.resolvable(j)),
            forall|j: int| 0 <= j < i ==> dag.resolvable(j),
        decreases done.len() - i,
    {
        if !done[i] {
            let description = dag.executions[i].description.clone();
            assert(dag.first_stuck(i as int));
            return Err(DAGError::CycleDetected { description });
        }
        i += 1;
    }
    let mut k: usize = 0;
    while k < callbacks.files.len()
        invariant
            k <= callbacks.files.len(),
            files@ == dag.file_uuids(),
            file_set@ == files@.to_set(),
            dag.no_duplicates(),
            !dag.has_missing(),
            dag.is_acyclic(),
            forall|k2: int| 0 <= k2 < k ==> !#[trigger] callbacks.unknown_file_at(*dag, k2),
        decreases callbacks.files.len() - k,
    {
        if !file_set.contains(&callbacks.files[k]) {
            let description = String::from_str("File required by a callback");
            assert(callbacks.unknown_file_at(*dag, k as int));
            return Err(DAGError::MissingFile { uuid: callbacks.files[k], description });
        }
        k += 1;
    }
    let mut k: usize = 0;
    while k < callbacks.executions.len()
        invariant
            k <= callbacks.executions.len(),
            exec_ids@ == dag.exec_uuids(),
            exec_set@ == exec_ids@.to_set(),
            dag.no_duplicates(),
            !dag.has_missing(),
            dag.is_acyclic(),
            forall|k2: int| 0 <= k2 < k ==> !#[trigger] callbacks.unknown_exec_at(*dag, k2),
            forall|k2: int| !#[trigger] callbacks.unknown_file_at(*dag, k2),
        decreases callbacks.executions.len() - k,
    {
        if !exec_set.contains(&callbacks.executions[k]) {
            assert(callbacks.unknown_exec_at(*dag, k as int));
            return Err(DAGError::MissingExecution { uuid: callbacks.executions[k] });
        }
        k += 1;
    }
    Ok(())
}

} // verus!
