use task_maker::dag::{
    Execution, ExecutionDAG, ExecutionLimits, File, FileStoreKey, SandboxFile,
};

fn execution(uuid: u128, desc: &str, outputs: &[u128]) -> Execution {
    Execution {
        uuid,
        description: desc.to_string(),
        command: "true".to_string(),
        args: vec![],
        stdin: None,
        inputs: vec![],
        outputs: outputs.iter().map(|f| SandboxFile { path: format!("o{}", f), file: *f }).collect(),
        limits: ExecutionLimits { cpu_time_ms: Some(1000), wall_time_ms: None, memory_kib: None },
    }
}

fn file(uuid: u128) -> File {
    File { uuid, description: format!("f{}", uuid) }
}

#[test]
fn new_dag_is_empty() {
    let dag: ExecutionDAG<u32> = ExecutionDAG::new();
    assert!(dag.data.provided_files.is_empty());
    assert!(dag.data.executions.is_empty());
    let subs = dag.subscriptions();
    assert!(subs.executions.is_empty() && subs.files.is_empty());
}

#[test]
fn provide_file_replaces_same_uuid() {
    let mut dag: ExecutionDAG<u32> = ExecutionDAG::new();
    dag.provide_file(file(1), FileStoreKey { hash: vec![1] }, "/a".to_string());
    dag.provide_file(file(2), FileStoreKey { hash: vec![2] }, "/b".to_string());
    dag.provide_file(file(1), FileStoreKey { hash: vec![3] }, "/c".to_string());
    assert_eq!(dag.data.provided_files.len(), 2);
    assert_eq!(dag.data.provided_files[0].local_path, "/c");
    assert_eq!(dag.data.provided_files[0].key.hash, vec![3]);
}

#[test]
fn add_execution_replaces_same_uuid() {
    let mut dag: ExecutionDAG<u32> = ExecutionDAG::new();
    let w = dag.add_execution(execution(7, "first", &[]));
    assert_eq!(w.uuid, 7);
    dag.add_execution(execution(7, "second", &[]));
    assert_eq!(dag.data.executions.len(), 1);
    assert_eq!(dag.data.executions[0].description, "second");
}

#[test]
fn callbacks_are_bound_and_subscribed() {
    let mut dag: ExecutionDAG<u32> = ExecutionDAG::new();
    let w = dag.add_execution(execution(7, "E", &[70]));
    let w = w.on_start(&mut dag, 1).on_done(&mut dag, 2);
    w.on_skip(&mut dag, 3).on_start(&mut dag, 4);
    let entry = dag.execution_callbacks.get(7).unwrap();
    assert_eq!(entry.on_start, Some(4));
    assert_eq!(entry.on_done, Some(2));
    assert_eq!(entry.on_skip, Some(3));
    dag.write_file_to(&file(70), "/out".to_string());
    dag.get_file_content(&file(70), 16, 9);
    let f = dag.file_callbacks.get(70).unwrap();
    assert_eq!(f.write_to, Some("/out".to_string()));
    assert_eq!(f.get_content, Some((16, 9)));
    let subs = dag.subscriptions();
    assert_eq!(subs.executions, vec![7]);
    assert_eq!(subs.files, vec![70]);
}
