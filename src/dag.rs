use vstd::prelude::*;

use crate::registry::Registry;

verus! {

/// Identifier of a file of the graph.
pub type FileUuid = u128;

/// Identifier of an execution of the graph.
pub type ExecutionUuid = u128;

/// Identifier of a worker.
pub type WorkerUuid = u128;

/// A symbolic handle to a file: no content, only its identity.
pub struct File {
    pub uuid: FileUuid,
    pub description: String,
}

/// The content digest under which a file's bytes are kept in the store.
pub struct FileStoreKey {
    pub hash: Vec<u8>,
}

/// A file whose bytes come from the client: its handle, the key of its
/// content and where the client keeps it.
pub struct ProvidedFile {
    pub file: File,
    pub key: FileStoreKey,
    pub local_path: String,
}

/// A file bound to a path inside the sandbox of an execution.
pub struct SandboxFile {
    pub path: String,
    pub file: FileUuid,
}

/// Resource limits enforced by the sandbox.
pub struct ExecutionLimits {
    pub cpu_time_ms: Option<u64>,
    pub wall_time_ms: Option<u64>,
    pub memory_kib: Option<u64>,
}

/// A process to run in a sandbox, with the files it reads and writes.
pub struct Execution {
    pub uuid: ExecutionUuid,
    pub description: String,
    pub command: String,
    pub args: Vec<String>,
    pub stdin: Option<FileUuid>,
    pub inputs: Vec<SandboxFile>,
    pub outputs: Vec<SandboxFile>,
    pub limits: ExecutionLimits,
}

pub open spec fn files_of(s: Seq<SandboxFile>) -> Seq<FileUuid> {
    s.map_values(|b: SandboxFile| b.file)
}

impl Execution {
    /// The files this execution reads: its stdin first, then its inputs.
    pub open spec fn deps(self) -> Seq<FileUuid> {
        match self.stdin {
            Some(f) => seq![f] + files_of(self.inputs@),
            None => files_of(self.inputs@),
        }
    }

    /// The files this execution produces.
    pub open spec fn outs(self) -> Seq<FileUuid> {
        files_of(self.outputs@)
    }

    pub fn dependencies(&self) -> (r: Vec<FileUuid>)
        ensures
            r@ == self.deps(),
    {
        let mut r: Vec<FileUuid> = Vec::new();
        match self.stdin {
            Some(f) => r.push(f),
            None => {},
        }
        let ghost head = r@;
        let mut i: usize = 0;
        while i < self.inputs.len()
            invariant
                i <= self.inputs.len(),
                r@ == head + files_of(self.inputs@.take(i as int)),
            decreases self.inputs.len() - i,
        {
            r.push(self.inputs[i].file);
            proof {
                assert(files_of(self.inputs@.take(i + 1)) =~= files_of(self.inputs@.take(i as int))
                    .push(self.inputs@[i as int].file));
            }
            i += 1;
        }
        proof {
            assert(self.inputs@.take(i as int) =~= self.inputs@);
            assert(r@ =~= self.deps());
        }
        r
    }

    pub fn output_files(&self) -> (r: Vec<FileUuid>)
        ensures
            r@ == self.outs(),
    {
        let mut r: Vec<FileUuid> = Vec::new();
        let mut i: usize = 0;
        while i < self.outputs.len()
            invariant
                i <= self.outputs.len(),
                r@ == files_of(self.outputs@.take(i as int)),
            decreases self.outputs.len() - i,
        {
            r.push(self.outputs[i].file);
            proof {
                assert(files_of(self.outputs@.take(i + 1)) =~= files_of(
                    self.outputs@.take(i as int),
                ).push(self.outputs@[i as int].file));
            }
            i += 1;
        }
        proof {
            assert(self.outputs@.take(i as int) =~= self.outputs@);
        }
        r
    }
}

/// How an execution ended.
pub enum ExecutionStatus {
    Success,
    ReturnCode(u32),
    Signal(u32),
    TimeLimitExceeded,
    MemoryLimitExceeded,
    InternalError(String),
}

/// What a worker reports after running an execution: its status, its use of
/// resources and the content key of each file it produced.
pub struct WorkerResult {
    pub status: ExecutionStatus,
    pub cpu_time_us: u64,
    pub wall_time_us: u64,
    pub memory_peak_kib: u64,
    pub outputs: Vec<(FileUuid, FileStoreKey)>,
}

/// The part of the graph that is sent to the coordinator.
pub struct ExecutionDAGData {
    pub provided_files: Vec<ProvidedFile>,
    pub executions: Vec<Execution>,
}

/// The identifiers that have at least one callback bound at the client.
pub struct ExecutionDAGCallbacks {
    pub executions: Vec<ExecutionUuid>,
    pub files: Vec<FileUuid>,
}


/// What the client wants done when an execution starts, ends or is skipped.
/// `C` is the client's callback type; each slot fires at most once.
pub struct ExecutionCallbacks<C> {
    pub on_start: Option<C>,
    pub on_done: Option<C>,
    pub on_skip: Option<C>,
}

/// What the client wants done with a file once it is ready: where to write
/// it, and how many of its first bytes to hand to a callback.
pub struct FileCallbacks<C> {
    pub write_to: Option<String>,
    pub get_content: Option<(usize, C)>,
}

/// The callbacks bound to execution `k`, or none.
pub open spec fn execution_entry<C>(
    m: Map<ExecutionUuid, ExecutionCallbacks<C>>,
    k: ExecutionUuid,
) -> ExecutionCallbacks<C> {
    if m.contains_key(k) {
        m[k]
    } else {
        ExecutionCallbacks { on_start: None, on_done: None, on_skip: None }
    }
}

/// The callbacks bound to file `k`, or none.
pub open spec fn file_entry<C>(m: Map<FileUuid, FileCallbacks<C>>, k: FileUuid) -> FileCallbacks<
    C,
> {
    if m.contains_key(k) {
        m[k]
    } else {
        FileCallbacks { write_to: None, get_content: None }
    }
}

/// `new` is `old` with the item of identifier `u` replaced by `item`, or
/// with `item` appended where no item has that identifier.
pub open spec fn upserted<T>(old: Seq<T>, new: Seq<T>, ids: Seq<u128>, u: u128, item: T) -> bool {
    ||| exists|i: int| 0 <= i < old.len() && ids[i] == u && new == old.update(i, item)
    ||| !ids.contains(u) && new == old.push(item)
}

/// A graph under construction at the client, with the client's callbacks.
pub struct ExecutionDAG<C> {
    pub data: ExecutionDAGData,
    pub execution_callbacks: Registry<ExecutionCallbacks<C>>,
    pub file_callbacks: Registry<FileCallbacks<C>>,
}

/// The handle that `add_execution` returns, to bind callbacks to the
/// execution just added.
pub struct AddExecutionWrapper {
    pub uuid: ExecutionUuid,
}

impl<C> ExecutionDAG<C> {
    pub open spec fn wf(self) -> bool {
        self.execution_callbacks.wf() && self.file_callbacks.wf()
    }

    /// An empty graph with no callbacks.
    pub fn new() -> (r: Self)
        ensures
            r.wf(),
            r.data.provided_files@.len() == 0,
            r.data.executions@.len() == 0,
            r.execution_callbacks@ == Map::<ExecutionUuid, ExecutionCallbacks<C>>::empty(),
            r.file_callbacks@ == Map::<FileUuid, FileCallbacks<C>>::empty(),
    {
        ExecutionDAG {
            data: ExecutionDAGData { provided_files: Vec::new(), executions: Vec::new() },
            execution_callbacks: Registry::new(),
            file_callbacks: Registry::new(),
        }
    }

    /// Adds a file whose bytes the client holds at `local_path`, under the
    /// content key `key`; a file already provided under the same identifier
    /// is replaced.
    pub fn provide_file(&mut self, file: File, key: FileStoreKey, local_path: String)
        requires
            old(self).wf(),
        ensures
            final(self).wf(),
            final(self).data.executions@ == old(self).data.executions@,
            final(self).execution_callbacks@ == old(self).execution_callbacks@,
            final(self).file_callbacks@ == old(self).file_callbacks@,
            upserted(
                old(self).data.provided_files@,
                final(self).data.provided_files@,
                old(self).data.provided_files@.map_values(|p: ProvidedFile| p.file.uuid),
                file.uuid,
                (ProvidedFile { file, key, local_path }),
            ),
    {
        let ghost olds = self.data.provided_files@;
        let ghost ids = olds.map_values(|p: ProvidedFile| p.file.uuid);
        let ghost item = ProvidedFile { file, key, local_path };
        let u = file.uuid;
        let mut i: usize = 0;
        while i < self.data.provided_files.len()
            invariant
                *self == *old(self),
                self.wf(),
                u == file.uuid,
                self.data.provided_files@ == olds,
                ids == olds.map_values(|p: ProvidedFile| p.file.uuid),
                i <= olds.len(),
                forall|j: int| 0 <= j < i ==> olds[j].file.uuid != u,
            decreases olds.len() - i,
        {
            if self.data.provided_files[i].file.uuid == u {
                self.data.provided_files.set(i, ProvidedFile { file, key, local_path });
                assert(ids[i as int] == u);
                return;
            }
            i += 1;
        }
        self.data.provided_files.push(ProvidedFile { file, key, local_path });
        assert(!ids.contains(u));
    }

    /// Adds an execution, replacing one with the same identifier, and returns
    /// the handle to bind its callbacks.
    pub fn add_execution(&mut self, execution: Execution) -> (r: AddExecutionWrapper)
        requires
            old(self).wf(),
        ensures
            final(self).wf(),
            r.uuid == execution.uuid,
            final(self).data.provided_files@ == old(self).data.provided_files@,
            final(self).execution_callbacks@ == old(self).execution_callbacks@,
            final(self).file_callbacks@ == old(self).file_callbacks@,
            upserted(
                old(self).data.executions@,
                final(self).data.executions@,
                old(self).data.executions@.map_values(|e: Execution| e.uuid),
                execution.uuid,
                execution,
            ),
    {
        let ghost olds = self.data.executions@;
        let ghost ids = olds.map_values(|e: Execution| e.uuid);
        let u = execution.uuid;
        let mut i: usize = 0;
        while i < self.data.executions.len()
            invariant
                *self == *old(self),
                self.wf(),
                u == execution.uuid,
                self.data.executions@ == olds,
                ids == olds.map_values(|e: Execution| e.uuid),
                i <= olds.len(),
                forall|j: int| 0 <= j < i ==> olds[j].uuid != u,
            decreases olds.len() - i,
        {
            if self.data.executions[i].uuid == u {
                self.data.executions.set(i, execution);
                assert(ids[i as int] == u);
                return AddExecutionWrapper { uuid: u };
            }
            i += 1;
        }
        self.data.executions.push(execution);
        assert(!ids.contains(u));
        AddExecutionWrapper { uuid: u }
    }

    /// When `file` is ready it is written to `path`.
    pub fn write_file_to(&mut self, file: &File, path: String)
        requires
            old(self).wf(),
        ensures
            final(self).wf(),
            final(self).data == old(self).data,
            final(self).execution_callbacks@ == old(self).execution_callbacks@,
            final(self).file_callbacks@ == old(self).file_callbacks@.insert(
                file.uuid,
                (FileCallbacks {
                    write_to: Some(path),
                    get_content: file_entry(old(self).file_callbacks@, file.uuid).get_content,
                }),
            ),
    {
        let mut entry = self.file_callback(file.uuid);
        entry.write_to = Some(path);
        self.file_callbacks.insert(file.uuid, entry);
        proof {
            assert(final(self).file_callbacks@ =~= old(self).file_callbacks@.insert(
                file.uuid,
                (FileCallbacks {
                    write_to: Some(path),
                    get_content: file_entry(old(self).file_callbacks@, file.uuid).get_content,
                }),
            ));
        }
    }

    /// When `file` is ready its first `limit` bytes are handed to `callback`.
    pub fn get_file_content(&mut self, file: &File, limit: usize, callback: C)
        requires
            old(self).wf(),
        ensures
            final(self).wf(),
            final(self).data == old(self).data,
            final(self).execution_callbacks@ == old(self).execution_callbacks@,
            final(self).file_callbacks@ == old(self).file_callbacks@.insert(
                file.uuid,
                (FileCallbacks {
                    write_to: file_entry(old(self).file_callbacks@, file.uuid).write_to,
                    get_content: Some((limit, callback)),
                }),
            ),
    {
        let mut entry = self.file_callback(file.uuid);
        entry.get_content = Some((limit, callback));
        self.file_callbacks.insert(file.uuid, entry);
        proof {
            assert(final(self).file_callbacks@ =~= old(self).file_callbacks@.insert(
                file.uuid,
                (FileCallbacks {
                    write_to: file_entry(old(self).file_callbacks@, file.uuid).write_to,
                    get_content: Some((limit, callback)),
                }),
            ));
        }
    }

    /// Takes out the callbacks bound to `file`, or empty ones.
    fn file_callback(&mut self, file: FileUuid) -> (r: FileCallbacks<C>)
        requires
            old(self).wf(),
        ensures
            final(self).wf(),
            final(self).data == old(self).data,
            final(self).execution_callbacks@ == old(self).execution_callbacks@,
            final(self).file_callbacks@ == old(self).file_callbacks@.remove(file),
            r == file_entry(old(self).file_callbacks@, file),
    {
        match self.file_callbacks.take(file) {
            Some(entry) => entry,
            None => FileCallbacks { write_to: None, get_content: None },
        }
    }

    /// The identifiers that have at least one callback bound.
    pub fn subscriptions(&self) -> (r: ExecutionDAGCallbacks)
        requires
            self.wf(),
        ensures
            r.executions@.no_duplicates(),
            r.executions@.to_set() == self.execution_callbacks@.dom(),
            r.files@.no_duplicates(),
            r.files@.to_set() == self.file_callbacks@.dom(),
    {
        ExecutionDAGCallbacks {
            executions: self.execution_callbacks.keys(),
            files: self.file_callbacks.keys(),
        }
    }
}

impl AddExecutionWrapper {
    /// Binds the callback for when the execution starts.
    pub fn on_start<C>(self, dag: &mut ExecutionDAG<C>, callback: C) -> (r: AddExecutionWrapper)
        requires
            old(dag).wf(),
        ensures
            r == self,
            final(dag).wf(),
            final(dag).data == old(dag).data,
            final(dag).file_callbacks@ == old(dag).file_callbacks@,
            final(dag).execution_callbacks@ == old(dag).execution_callbacks@.insert(
                self.uuid,
                (ExecutionCallbacks {
                    on_start: Some(callback),
                    on_done: execution_entry(old(dag).execution_callbacks@, self.uuid).on_done,
                    on_skip: execution_entry(old(dag).execution_callbacks@, self.uuid).on_skip,
                }),
            ),
    {
        let mut entry = self.ensure_execution_callback(dag);
        entry.on_start = Some(callback);
        dag.execution_callbacks.insert(self.uuid, entry);
        proof {
            assert(final(dag).execution_callbacks@ =~= old(dag).execution_callbacks@.insert(
                self.uuid,
                (ExecutionCallbacks {
                    on_start: Some(callback),
                    on_done: execution_entry(old(dag).execution_callbacks@, self.uuid).on_done,
                    on_skip: execution_entry(old(dag).execution_callbacks@, self.uuid).on_skip,
                }),
            ));
        }
        self
    }

    /// Binds the callback for when the execution ends.
    pub fn on_done<C>(self, dag: &mut ExecutionDAG<C>, callback: C) -> (r: AddExecutionWrapper)
        requires
            old(dag).wf(),
        ensures
            r == self,
            final(dag).wf(),
            final(dag).data == old(dag).data,
            final(dag).file_callbacks@ == old(dag).file_callbacks@,
            final(dag).execution_callbacks@ == old(dag).execution_callbacks@.insert(
                self.uuid,
                (ExecutionCallbacks {
                    on_start: execution_entry(old(dag).execution_callbacks@, self.uuid).on_start,
                    on_done: Some(callback),
                    on_skip: execution_entry(old(dag).execution_callbacks@, self.uuid).on_skip,
                }),
            ),
    {
        let mut entry = self.ensure_execution_callback(dag);
        entry.on_done = Some(callback);
        dag.execution_callbacks.insert(self.uuid, entry);
        proof {
            assert(final(dag).execution_callbacks@ =~= old(dag).execution_callbacks@.insert(
                self.uuid,
                (ExecutionCallbacks {
                    on_start: execution_entry(old(dag).execution_callbacks@, self.uuid).on_start,
                    on_done: Some(callback),
                    on_skip: execution_entry(old(dag).execution_callbacks@, self.uuid).on_skip,
                }),
            ));
        }
        self
    }

    /// Binds the callback for when the execution is skipped.
    pub fn on_skip<C>(self, dag: &mut ExecutionDAG<C>, callback: C) -> (r: AddExecutionWrapper)
        requires
            old(dag).wf(),
        ensures
            r == self,
            final(dag).wf(),
            final(dag).data == old(dag).data,
            final(dag).file_callbacks@ == old(dag).file_callbacks@,
            final(dag).execution_callbacks@ == old(dag).execution_callbacks@.insert(
                self.uuid,
                (ExecutionCallbacks {
                    on_start: execution_entry(old(dag).execution_callbacks@, self.uuid).on_start,
                    on_done: execution_entry(old(dag).execution_callbacks@, self.uuid).on_done,
                    on_skip: Some(callback),
                }),
            ),
    {
        let mut entry = self.ensure_execution_callback(dag);
        entry.on_skip = Some(callback);
        dag.execution_callbacks.insert(self.uuid, entry);
        proof {
            assert(final(dag).execution_callbacks@ =~= old(dag).execution_callbacks@.insert(
                self.uuid,
                (ExecutionCallbacks {
                    on_start: execution_entry(old(dag).execution_callbacks@, self.uuid).on_start,
                    on_done: execution_entry(old(dag).execution_callbacks@, self.uuid).on_done,
                    on_skip: Some(callback),
                }),
            ));
        }
        self
    }

    /// Takes out the callbacks bound to this execution, or empty ones.
    fn ensure_execution_callback<C>(&self, dag: &mut ExecutionDAG<C>) -> (r: ExecutionCallbacks<C>)
        requires
            old(dag).wf(),
        ensures
            final(dag).wf(),
            final(dag).data == old(dag).data,
            final(dag).file_callbacks@ == old(dag).file_callbacks@,
            final(dag).execution_callbacks@ == old(dag).execution_callbacks@.remove(self.uuid),
            r == execution_entry(old(dag).execution_callbacks@, self.uuid),
    {
        match dag.execution_callbacks.take(self.uuid) {
            Some(entry) => entry,
            None => ExecutionCallbacks { on_start: None, on_done: None, on_skip: None },
        }
    }
}

} // verus!
