use task_maker::dag::{
    Execution, ExecutionDAGData, ExecutionLimits, ExecutionStatus, File, FileStoreKey, ProvidedFile,
    SandboxFile, WorkerResult,
};
use task_maker::scheduler::{ExecState, Notification, Scheduler};

fn execution(uuid: u128, stdin: Option<u128>, inputs: &[u128], outputs: &[u128]) -> Execution {
    Execution {
        uuid,
        description: format!("E{}", uuid),
        command: "cat".to_string(),
        args: vec![],
        stdin,
        inputs: inputs.iter().map(|f| SandboxFile { path: format!("i{}", f), file: *f }).collect(),
        outputs: outputs.iter().map(|f| SandboxFile { path: format!("o{}", f), file: *f }).collect(),
        limits: ExecutionLimits { cpu_time_ms: None, wall_time_ms: None, memory_kib: None },
    }
}

fn ok() -> WorkerResult {
    WorkerResult { status: ExecutionStatus::Success, cpu_time_us: 0, wall_time_us: 0, memory_peak_kib: 0, outputs: vec![] }
}

fn exit(code: u32) -> WorkerResult {
    WorkerResult { status: ExecutionStatus::ReturnCode(code), cpu_time_us: 0, wall_time_us: 0, memory_peak_kib: 0, outputs: vec![] }
}

fn started(n: Option<Notification>) -> u128 {
    match n {
        Some(Notification::Start { execution, .. }) => execution,
        _ => panic!("expected a start"),
    }
}

fn kinds(notes: &[Notification]) -> Vec<(char, u128)> {
    notes
        .iter()
        .map(|n| match n {
            Notification::Start { execution, .. } => ('s', *execution),
            Notification::Done { execution, .. } => ('d', *execution),
            Notification::Skip { execution } => ('k', *execution),
        })
        .collect()
}

#[test]
fn empty_dag_has_nothing_to_run() {
    let mut s = Scheduler::new(ExecutionDAGData { provided_files: vec![], executions: vec![] });
    assert!(s.dispatch(1).is_none());
}

#[test]
fn single_execution_with_provided_stdin() {
    let data = ExecutionDAGData {
        provided_files: vec![ProvidedFile {
            file: File { uuid: 100, description: "F1".to_string() },
            key: FileStoreKey { hash: vec![1] },
            local_path: "/in".to_string(),
        }],
        executions: vec![execution(1, Some(100), &[], &[200])],
    };
    let mut s = Scheduler::new(data);
    assert!(s.states[0] == ExecState::Ready);
    assert_eq!(started(s.dispatch(9)), 1);
    let notes = s.complete(0, ok());
    assert_eq!(kinds(&notes), vec![('d', 1)]);
    assert!(s.states[0] == ExecState::Done);
    assert!(s.dispatch(9).is_none());
}

#[test]
fn chain_failure_skips_the_rest() {
    let data = ExecutionDAGData {
        provided_files: vec![],
        executions: vec![
            execution(1, None, &[], &[10]),
            execution(2, None, &[10], &[20]),
            execution(3, None, &[20], &[]),
        ],
    };
    let mut s = Scheduler::new(data);
    assert!(s.states[1] == ExecState::Waiting);
    assert_eq!(started(s.dispatch(1)), 1);
    assert_eq!(kinds(&s.complete(0, ok())), vec![('d', 1)]);
    assert!(s.states[1] == ExecState::Ready);
    assert_eq!(started(s.dispatch(1)), 2);
    assert_eq!(kinds(&s.complete(1, exit(1))), vec![('d', 2), ('k', 3)]);
    assert!(s.states[2] == ExecState::Skipped);
    assert!(s.dispatch(1).is_none());
}

#[test]
fn diamond_failure_skips_join_only() {
    let data = ExecutionDAGData {
        provided_files: vec![],
        executions: vec![
            execution(1, None, &[], &[10]),
            execution(2, None, &[10], &[20]),
            execution(3, None, &[10], &[30]),
            execution(4, None, &[20, 30], &[]),
        ],
    };
    let mut s = Scheduler::new(data);
    assert_eq!(started(s.dispatch(1)), 1);
    s.complete(0, ok());
    assert_eq!(started(s.dispatch(1)), 2);
    assert_eq!(started(s.dispatch(2)), 3);
    assert_eq!(kinds(&s.complete(1, exit(1))), vec![('d', 2), ('k', 4)]);
    assert_eq!(kinds(&s.complete(2, ok())), vec![('d', 3)]);
    assert!(s.states[3] == ExecState::Skipped);
    assert!(s.dispatch(1).is_none());
}

#[test]
fn all_successes_report_every_execution_done_once() {
    let data = ExecutionDAGData {
        provided_files: vec![],
        executions: vec![execution(1, None, &[], &[10]), execution(2, None, &[10], &[])],
    };
    let mut s = Scheduler::new(data);
    let mut done = vec![];
    while let Some(Notification::Start { execution, .. }) = s.dispatch(1) {
        let index = if execution == 1 { 0 } else { 1 };
        for n in s.complete(index, ok()) {
            match n {
                Notification::Done { execution, .. } => done.push(execution),
                _ => panic!("no skip expected"),
            }
        }
    }
    assert_eq!(done, vec![1, 2]);
}

#[test]
fn failure_reports_skips_breadth_first() {
    let data = ExecutionDAGData {
        provided_files: vec![],
        executions: vec![
            execution(1, None, &[], &[10]),
            execution(2, None, &[30], &[]),
            execution(3, None, &[10], &[30]),
        ],
    };
    let mut s = Scheduler::new(data);
    assert_eq!(started(s.dispatch(1)), 1);
    assert_eq!(kinds(&s.complete(0, exit(2))), vec![('d', 1), ('k', 3), ('k', 2)]);
}
