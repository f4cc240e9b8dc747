use task_maker::dag::{Execution, ExecutionDAGData, ExecutionLimits, FileStoreKey, SandboxFile};
use task_maker::skip::skip_targets;
use task_maker::store::PinTable;

fn execution(uuid: u128, inputs: &[u128], outputs: &[u128]) -> Execution {
    Execution {
        uuid,
        description: format!("E{}", uuid),
        command: "run".to_string(),
        args: vec![],
        stdin: None,
        inputs: inputs.iter().map(|f| SandboxFile { path: format!("i{}", f), file: *f }).collect(),
        outputs: outputs.iter().map(|f| SandboxFile { path: format!("o{}", f), file: *f }).collect(),
        limits: ExecutionLimits { cpu_time_ms: None, wall_time_ms: None, memory_kib: None },
    }
}

#[test]
fn chain_failure_skips_downstream() {
    let data = ExecutionDAGData {
        provided_files: vec![],
        executions: vec![execution(1, &[], &[10]), execution(2, &[10], &[20]), execution(3, &[20], &[])],
    };
    assert_eq!(skip_targets(&data, 1), vec![2]);
    assert_eq!(skip_targets(&data, 0), vec![1, 2]);
    assert_eq!(skip_targets(&data, 2), Vec::<usize>::new());
}

#[test]
fn diamond_failure_skips_join_once() {
    let data = ExecutionDAGData {
        provided_files: vec![],
        executions: vec![
            execution(1, &[], &[10]),
            execution(2, &[10], &[20]),
            execution(3, &[10], &[30]),
            execution(4, &[20, 30], &[]),
        ],
    };
    assert_eq!(skip_targets(&data, 1), vec![3]);
    assert_eq!(skip_targets(&data, 0), vec![1, 2, 3]);
}

#[test]
fn pin_twice_unpin_twice_restores_count() {
    let key = FileStoreKey { hash: vec![1, 2, 3] };
    let other = FileStoreKey { hash: vec![4] };
    let mut pins = PinTable::new();
    pins.pin(&other);
    assert_eq!(pins.count(&key), 0);
    pins.pin(&key);
    pins.pin(&key);
    assert_eq!(pins.count(&key), 2);
    assert!(pins.unpin(&key));
    assert!(pins.unpin(&key));
    assert_eq!(pins.count(&key), 0);
    assert_eq!(pins.count(&other), 1);
}

#[test]
fn unpin_of_unpinned_key_changes_nothing() {
    let key = FileStoreKey { hash: vec![7] };
    let mut pins = PinTable::new();
    assert!(!pins.unpin(&key));
    assert_eq!(pins.count(&key), 0);
}

#[test]
fn skips_come_in_breadth_first_order() {
    let data = ExecutionDAGData {
        provided_files: vec![],
        executions: vec![
            execution(1, &[], &[10]),
            execution(2, &[30], &[]),
            execution(3, &[10], &[30]),
        ],
    };
    assert_eq!(skip_targets(&data, 0), vec![2, 1]);
}
