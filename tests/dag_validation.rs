use task_maker::dag::{
    Execution, ExecutionDAGCallbacks, ExecutionDAGData, ExecutionLimits, File, FileStoreKey,
    ProvidedFile, SandboxFile,
};
use task_maker::validate::{check_dag, DAGError};

fn execution(uuid: u128, desc: &str, stdin: Option<u128>, inputs: &[u128], outputs: &[u128]) -> Execution {
    Execution {
        uuid,
        description: desc.to_string(),
        command: "cat".to_string(),
        args: vec![],
        stdin,
        inputs: inputs
            .iter()
            .map(|f| SandboxFile { path: format!("in{}", f), file: *f })
            .collect(),
        outputs: outputs
            .iter()
            .map(|f| SandboxFile { path: format!("out{}", f), file: *f })
            .collect(),
        limits: ExecutionLimits { cpu_time_ms: None, wall_time_ms: None, memory_kib: None },
    }
}

fn provided(uuid: u128) -> ProvidedFile {
    ProvidedFile {
        file: File { uuid, description: format!("file {}", uuid) },
        key: FileStoreKey { hash: vec![1, 2, 3] },
        local_path: format!("/tmp/{}", uuid),
    }
}

fn no_callbacks() -> ExecutionDAGCallbacks {
    ExecutionDAGCallbacks { executions: vec![], files: vec![] }
}

#[test]
fn empty_dag_is_valid() {
    let data = ExecutionDAGData { provided_files: vec![], executions: vec![] };
    assert!(check_dag(&data, &no_callbacks()).is_ok());
}

#[test]
fn cycle_is_detected() {
    let data = ExecutionDAGData {
        provided_files: vec![],
        executions: vec![
            execution(1, "E1", None, &[20], &[10]),
            execution(2, "E2", None, &[10], &[20]),
        ],
    };
    match check_dag(&data, &no_callbacks()) {
        Err(DAGError::CycleDetected { description }) => assert_eq!(description, "E1"),
        _ => panic!("expected a cycle"),
    }
}

fn dag(provided_ids: &[u128], executions: Vec<Execution>) -> ExecutionDAGData {
    ExecutionDAGData { provided_files: provided_ids.iter().map(|u| provided(*u)).collect(), executions }
}

#[test]
fn chain_with_provided_input_is_valid() {
    let data = dag(
        &[100],
        vec![execution(1, "E1", Some(100), &[], &[10]), execution(2, "E2", None, &[10], &[20])],
    );
    let callbacks = ExecutionDAGCallbacks { executions: vec![1, 2], files: vec![10, 20, 100] };
    assert!(check_dag(&data, &callbacks).is_ok());
}

#[test]
fn missing_dependency_is_reported() {
    let data = dag(&[], vec![execution(1, "E1", Some(7), &[], &[10])]);
    match check_dag(&data, &no_callbacks()) {
        Err(DAGError::MissingFile { uuid, description }) => {
            assert_eq!(uuid, 7);
            assert_eq!(description, "Dependency of 'E1'");
        }
        _ => panic!("expected a missing file"),
    }
}

#[test]
fn missing_file_wins_over_cycle() {
    let data = dag(
        &[],
        vec![execution(1, "A", None, &[20], &[10]), execution(2, "B", None, &[99], &[20])],
    );
    match check_dag(&data, &no_callbacks()) {
        Err(DAGError::MissingFile { uuid, .. }) => assert_eq!(uuid, 99),
        _ => panic!("expected a missing file"),
    }
}

#[test]
fn duplicate_execution_uuid_is_reported() {
    let data = dag(&[], vec![execution(5, "E1", None, &[], &[10]), execution(5, "E2", None, &[], &[20])]);
    match check_dag(&data, &no_callbacks()) {
        Err(DAGError::DuplicateExecutionUUID { uuid }) => assert_eq!(uuid, 5),
        _ => panic!("expected a duplicate execution"),
    }
}

#[test]
fn duplicate_file_uuid_is_reported() {
    let data = dag(&[10], vec![execution(1, "E1", None, &[], &[10])]);
    match check_dag(&data, &no_callbacks()) {
        Err(DAGError::DuplicateFileUUID { uuid }) => assert_eq!(uuid, 10),
        _ => panic!("expected a duplicate file"),
    }
}

#[test]
fn unknown_subscribed_file_is_reported() {
    let data = dag(&[100], vec![]);
    let callbacks = ExecutionDAGCallbacks { executions: vec![], files: vec![100, 55] };
    match check_dag(&data, &callbacks) {
        Err(DAGError::MissingFile { uuid, description }) => {
            assert_eq!(uuid, 55);
            assert_eq!(description, "File required by a callback");
        }
        _ => panic!("expected a missing file"),
    }
}

#[test]
fn unknown_subscribed_execution_is_reported() {
    let data = dag(&[], vec![execution(1, "E1", None, &[], &[])]);
    let callbacks = ExecutionDAGCallbacks { executions: vec![1, 9], files: vec![] };
    match check_dag(&data, &callbacks) {
        Err(DAGError::MissingExecution { uuid }) => assert_eq!(uuid, 9),
        _ => panic!("expected a missing execution"),
    }
}

#[test]
fn validation_is_deterministic() {
    let data = dag(
        &[],
        vec![execution(1, "E1", None, &[20], &[10]), execution(2, "E2", None, &[10], &[20])],
    );
    let first = check_dag(&data, &no_callbacks());
    let second = check_dag(&data, &no_callbacks());
    match (first, second) {
        (Err(DAGError::CycleDetected { description: a }), Err(DAGError::CycleDetected { description: b })) => {
            assert_eq!(a, b)
        }
        _ => panic!("expected the same cycle twice"),
    }
}

#[test]
fn self_loop_is_a_cycle() {
    let data = dag(&[], vec![execution(3, "loop", None, &[30], &[30])]);
    assert!(matches!(check_dag(&data, &no_callbacks()), Err(DAGError::CycleDetected { .. })));
}

#[test]
fn dependencies_list_stdin_first() {
    let e = execution(1, "E1", Some(4), &[5, 6], &[7, 8]);
    assert_eq!(e.dependencies(), vec![4, 5, 6]);
    assert_eq!(e.output_files(), vec![7, 8]);
}
