use vstd::prelude::*;
use vstd::string::StringExecFns;

use crate::dag::{
    execution_entry, file_entry, ExecutionCallbacks, ExecutionDAG, ExecutionDAGCallbacks,
    ExecutionDAGData, ExecutionUuid, FileCallbacks, FileStoreKey, FileUuid, WorkerResult,
    WorkerUuid,
};
use crate::registry::Registry;

verus! {

/// A message from the client to the coordinator.
pub enum ClientMessage {
    /// Starts the evaluation of a graph; the first message, sent once.
    Evaluate { dag: ExecutionDAGData, callbacks: ExecutionDAGCallbacks },
    /// Announces the bytes of a provided file, sent next as chunks.
    ProvideFile(FileUuid, FileStoreKey),
}

/// What the client sees from the coordinator.
pub enum ServerEvent {
    AskFile(FileUuid),
    ProvideFile(FileUuid),
    NotifyStart(ExecutionUuid, WorkerUuid),
    NotifyDone(ExecutionUuid, WorkerResult),
    NotifySkip(ExecutionUuid),
    Status,
    Error(String),
    Done,
    /// The channel closed.
    Disconnected,
}

/// What the client's loop does next.
pub enum ClientAction<C> {
    /// Send `ProvideFile` for the file kept at `local_path`, then its bytes.
    Upload { uuid: FileUuid, local_path: String },
    /// Receive the file's bytes; write them to `write_to` and hand the first
    /// bytes to `get_content`, where set.
    ReceiveFile { uuid: FileUuid, write_to: Option<String>, get_content: Option<(usize, C)> },
    RunStart(C, WorkerUuid),
    RunDone(C, WorkerResult),
    RunSkip(C),
    /// Nothing to do; wait for the next message.
    Nothing,
    /// The evaluation completed.
    Finish,
    /// The evaluation failed.
    Abort(String),
}

/// The client side of one evaluation: where the provided files are, and the
/// callbacks that have not fired yet.
pub struct ExecutorClient<C> {
    pub provided_paths: Vec<(FileUuid, String)>,
    pub execution_callbacks: Registry<ExecutionCallbacks<C>>,
    pub file_callbacks: Registry<FileCallbacks<C>>,
    pub finished: bool,
}

/// `i` is the first entry of `s` for file `u`.
pub open spec fn first_path_at(s: Seq<(FileUuid, String)>, u: FileUuid, i: int) -> bool {
    0 <= i < s.len() && s[i].0 == u && forall|j: int| 0 <= j < i ==> s[j].0 != u
}

/// What `handle` does with each event: callbacks fire at most once, since a
/// slot is emptied when its callback is handed out.
pub open spec fn handle_outcome<C>(
    c: ExecutorClient<C>,
    d: ExecutorClient<C>,
    ev: ServerEvent,
    r: ClientAction<C>,
) -> bool {
    let ex = c.execution_callbacks@;
    let fl = c.file_callbacks@;
    &&& d.provided_paths@ == c.provided_paths@
    &&& d.execution_callbacks.wf()
    &&& d.file_callbacks.wf()
    &&& match ev {
        ServerEvent::AskFile(u) => {
            &&& d.execution_callbacks@ == ex && d.file_callbacks@ == fl
            &&& d.finished == c.finished
            &&& match r {
                ClientAction::Upload { uuid, local_path } => uuid == u && exists|i: int|
                    first_path_at(c.provided_paths@, u, i) && local_path@
                        == c.provided_paths@[i].1@,
                ClientAction::Abort(_) => forall|i: int|
                    0 <= i < c.provided_paths@.len() ==> c.provided_paths@[i].0 != u,
                _ => false,
            }
        },
        ServerEvent::ProvideFile(u) => {
            &&& d.execution_callbacks@ == ex && d.file_callbacks@ == fl.remove(u)
            &&& d.finished == c.finished
            &&& r == ClientAction::ReceiveFile {
                uuid: u,
                write_to: file_entry(fl, u).write_to,
                get_content: file_entry(fl, u).get_content,
            }
        },
        ServerEvent::NotifyStart(u, w) => {
            let e = execution_entry(ex, u);
            &&& d.file_callbacks@ == fl
            &&& d.finished == c.finished
            &&& match e.on_start {
                Some(f) => r == ClientAction::RunStart(f, w) && d.execution_callbacks@
                    == ex.insert(
                    u,
                    ExecutionCallbacks { on_start: None, on_done: e.on_done, on_skip: e.on_skip },
                ),
                None => r is Nothing && d.execution_callbacks@ == ex,
            }
        },
        ServerEvent::NotifyDone(u, res) => {
            let e = execution_entry(ex, u);
            &&& d.file_callbacks@ == fl
            &&& d.finished == c.finished
            &&& match e.on_done {
                Some(f) => r == ClientAction::RunDone(f, res) && d.execution_callbacks@
                    == ex.insert(
                    u,
                    ExecutionCallbacks { on_start: e.on_start, on_done: None, on_skip: e.on_skip },
                ),
                None => r is Nothing && d.execution_callbacks@ == ex,
            }
        },
        ServerEvent::NotifySkip(u) => {
            let e = execution_entry(ex, u);
            &&& d.file_callbacks@ == fl
            &&& d.finished == c.finished
            &&& match e.on_skip {
                Some(f) => r == ClientAction::RunSkip(f) && d.execution_callbacks@ == ex.insert(
                    u,
                    ExecutionCallbacks { on_start: e.on_start, on_done: e.on_done, on_skip: None },
                ),
                None => r is Nothing && d.execution_callbacks@ == ex,
            }
        },
        ServerEvent::Status => {
            &&& d.execution_callbacks@ == ex && d.file_callbacks@ == fl
            &&& d.finished == c.finished
            &&& r is Nothing
        },
        ServerEvent::Error(msg) => {
            &&& d.execution_callbacks@ == ex && d.file_callbacks@ == fl
            &&& d.finished
            &&& r == ClientAction::<C>::Abort(msg)
        },
        ServerEvent::Done => {
            &&& d.execution_callbacks@ == ex && d.file_callbacks@ == fl
            &&& d.finished
            &&& r is Finish
        },
        ServerEvent::Disconnected => {
            &&& d.execution_callbacks@ == ex && d.file_callbacks@ == fl
            &&& d.finished
            &&& if c.finished {
                r is Finish
            } else {
                r is Abort
            }
        },
    }
}

impl<C> ExecutorClient<C> {
    pub open spec fn wf(self) -> bool {
        self.execution_callbacks.wf() && self.file_callbacks.wf()
    }

    /// Starts an evaluation of `dag`: returns the client state and the
    /// `Evaluate` message, which carries the graph and the identifiers that
    /// have callbacks bound.
    pub fn new(dag: ExecutionDAG<C>) -> (r: (ExecutorClient<C>, ClientMessage))
        requires
            dag.wf(),
        ensures
            r.0.wf(),
            !r.0.finished,
            r.0.execution_callbacks@ == dag.execution_callbacks@,
            r.0.file_callbacks@ == dag.file_callbacks@,
            r.0.provided_paths@.len() == dag.data.provided_files@.len(),
            forall|i: int|
                0 <= i < r.0.provided_paths@.len() ==> r.0.provided_paths@[i].0
                    == dag.data.provided_files@[i].file.uuid && r.0.provided_paths@[i].1@
                    == dag.data.provided_files@[i].local_path@,
            match r.1 {
                ClientMessage::Evaluate { dag: data, callbacks } => {
                    &&& data == dag.data
                    &&& callbacks.executions@.no_duplicates()
                    &&& callbacks.executions@.to_set() == dag.execution_callbacks@.dom()
                    &&& callbacks.files@.no_duplicates()
                    &&& callbacks.files@.to_set() == dag.file_callbacks@.dom()
                },
                _ => false,
            },
    {
        let callbacks = dag.subscriptions();
        let mut provided_paths: Vec<(FileUuid, String)> = Vec::new();
        let mut i: usize = 0;
        while i < dag.data.provided_files.len()
            invariant
                i <= dag.data.provided_files.len(),
                provided_paths@.len() == i,
                forall|j: int|
                    0 <= j < i ==> provided_paths@[j].0 == dag.data.provided_files@[j].file.uuid
                        && provided_paths@[j].1@ == dag.data.provided_files@[j].local_path@,
            decreases dag.data.provided_files.len() - i,
        {
            let p = &dag.data.provided_files[i];
            provided_paths.push((p.file.uuid, p.local_path.clone()));
            i += 1;
        }
        let ExecutionDAG { data, execution_callbacks, file_callbacks } = dag;
        let client = ExecutorClient { provided_paths, execution_callbacks, file_callbacks, finished: false };
        (client, ClientMessage::Evaluate { dag: data, callbacks })
    }

    /// Decides what to do with one event from the coordinator.
    pub fn handle(&mut self, event: ServerEvent) -> (r: ClientAction<C>)
        requires
            old(self).wf(),
        ensures
            handle_outcome(*old(self), *final(self), event, r),
    {
        match event {
            ServerEvent::AskFile(u) => {
                let mut i: usize = 0;
                while i < self.provided_paths.len()
                    invariant
                        *self == *old(self),
                        self.wf(),
                        event == ServerEvent::AskFile(u),
                        i <= self.provided_paths.len(),
                        forall|j: int| 0 <= j < i ==> self.provided_paths@[j].0 != u,
                    decreases self.provided_paths.len() - i,
                {
                    if self.provided_paths[i].0 == u {
                        let local_path = self.provided_paths[i].1.clone();
                        assert(first_path_at(old(self).provided_paths@, u, i as int)
                            && local_path@ == old(self).provided_paths@[i as int].1@);
                        assert(exists|j: int|
                            first_path_at(old(self).provided_paths@, u, j) && local_path@
                                == old(self).provided_paths@[j].1@);
                        return ClientAction::Upload { uuid: u, local_path };
                    }
                    i += 1;
                }
                ClientAction::Abort(String::from_str("the server asked for a file that was not provided"))
            },
            ServerEvent::ProvideFile(u) => {
                match self.file_callbacks.take(u) {
                    Some(entry) => {
                        let FileCallbacks { write_to, get_content } = entry;
                        ClientAction::ReceiveFile { uuid: u, write_to, get_content }
                    },
                    None => ClientAction::ReceiveFile { uuid: u, write_to: None, get_content: None },
                }
            },
            ServerEvent::NotifyStart(u, w) => {
                match self.execution_callbacks.take(u) {
                    Some(entry) => {
                        let ExecutionCallbacks { on_start, on_done, on_skip } = entry;
                        match on_start {
                            Some(f) => {
                                self.execution_callbacks.insert(u, ExecutionCallbacks { on_start: None, on_done, on_skip });
                                proof { assert(self.execution_callbacks@ =~= old(self).execution_callbacks@.insert(u, ExecutionCallbacks { on_start: None, on_done, on_skip })); }
                                ClientAction::RunStart(f, w)
                            },
                            None => {
                                self.execution_callbacks.insert(u, ExecutionCallbacks { on_start, on_done, on_skip });
                                proof { assert(self.execution_callbacks@ =~= old(self).execution_callbacks@); }
                                ClientAction::Nothing
                            },
                        }
                    },
                    None => {
                        proof { assert(self.execution_callbacks@ =~= old(self).execution_callbacks@); }
                        ClientAction::Nothing
                    },
                }
            },
            ServerEvent::NotifyDone(u, res) => {
                match self.execution_callbacks.take(u) {
                    Some(entry) => {
                        let ExecutionCallbacks { on_start, on_done, on_skip } = entry;
                        match on_done {
                            Some(f) => {
                                self.execution_callbacks.insert(u, ExecutionCallbacks { on_start, on_done: None, on_skip });
                                proof { assert(self.execution_callbacks@ =~= old(self).execution_callbacks@.insert(u, ExecutionCallbacks { on_start, on_done: None, on_skip })); }
                                ClientAction::RunDone(f, res)
                            },
                            None => {
                                self.execution_callbacks.insert(u, ExecutionCallbacks { on_start, on_done, on_skip });
                                proof { assert(self.execution_callbacks@ =~= old(self).execution_callbacks@); }
                                ClientAction::Nothing
                            },
                        }
                    },
                    None => {
                        proof { assert(self.execution_callbacks@ =~= old(self).execution_callbacks@); }
                        ClientAction::Nothing
                    },
                }
            },
            ServerEvent::NotifySkip(u) => {
                match self.execution_callbacks.take(u) {
                    Some(entry) => {
                        let ExecutionCallbacks { on_start, on_done, on_skip } = entry;
                        match on_skip {
                            Some(f) => {
                                self.execution_callbacks.insert(u, ExecutionCallbacks { on_start, on_done, on_skip: None });
                                proof { assert(self.execution_callbacks@ =~= old(self).execution_callbacks@.insert(u, ExecutionCallbacks { on_start, on_done, on_skip: None })); }
                                ClientAction::RunSkip(f)
                            },
                            None => {
                                self.execution_callbacks.insert(u, ExecutionCallbacks { on_start, on_done, on_skip });
                                proof { assert(self.execution_callbacks@ =~= old(self).execution_callbacks@); }
                                ClientAction::Nothing
                            },
                        }
                    },
                    None => {
                        proof { assert(self.execution_callbacks@ =~= old(self).execution_callbacks@); }
                        ClientAction::Nothing
                    },
                }
            },
            ServerEvent::Status => ClientAction::Nothing,
            ServerEvent::Error(msg) => {
                self.finished = true;
                ClientAction::Abort(msg)
            },
            ServerEvent::Done => {
                self.finished = true;
                ClientAction::Finish
            },
            ServerEvent::Disconnected => {
                if self.finished {
                    ClientAction::Finish
                } else {
                    self.finished = true;
                    ClientAction::Abort(String::from_str("the connection closed before the evaluation completed"))
                }
            },
        }
    }
}

/// The first `limit` bytes of a file's content, or all of it if shorter.
pub fn content_prefix(content: &Vec<u8>, limit: usize) -> (r: Vec<u8>)
    ensures
        r@ == content@.take(if limit < content@.len() { limit as int } else { content@.len() as int }),
{
    let n = if limit < content.len() { limit } else { content.len() };
    let mut r: Vec<u8> = Vec::new();
    let mut i: usize = 0;
    while i < n
        invariant
            n <= content.len(),
            i <= n,
            r@ == content@.take(i as int),
        decreases n - i,
    {
        r.push(content[i]);
        proof {
            assert(content@.take(i + 1) =~= content@.take(i as int).push(content@[i as int]));
        }
        i += 1;
    }
    r
}

} // verus!
