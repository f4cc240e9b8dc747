use task_maker::client::{content_prefix, ClientAction, ClientMessage, ExecutorClient, ServerEvent};
use task_maker::dag::{ExecutionDAG, ExecutionLimits, ExecutionStatus, File, FileStoreKey, Execution, SandboxFile, WorkerResult};

fn sample_dag() -> ExecutionDAG<&'static str> {
    let mut dag = ExecutionDAG::new();
    dag.provide_file(
        File { uuid: 1, description: "input".to_string() },
        FileStoreKey { hash: vec![9, 9] },
        "/tmp/input.txt".to_string(),
    );
    let e = Execution {
        uuid: 10,
        description: "cat".to_string(),
        command: "cat".to_string(),
        args: vec![],
        stdin: Some(1),
        inputs: vec![],
        outputs: vec![SandboxFile { path: "stdout".to_string(), file: 2 }],
        limits: ExecutionLimits { cpu_time_ms: None, wall_time_ms: None, memory_kib: None },
    };
    let w = dag.add_execution(e);
    w.on_start(&mut dag, "start").on_done(&mut dag, "done");
    dag.write_file_to(&File { uuid: 2, description: "out".to_string() }, "/out".to_string());
    dag
}

fn result() -> WorkerResult {
    WorkerResult { status: ExecutionStatus::Success, cpu_time_us: 1, wall_time_us: 2, memory_peak_kib: 3, outputs: vec![] }
}

#[test]
fn evaluate_message_carries_graph_and_subscriptions() {
    let (_client, msg) = ExecutorClient::new(sample_dag());
    match msg {
        ClientMessage::Evaluate { dag, callbacks } => {
            assert_eq!(dag.executions.len(), 1);
            assert_eq!(callbacks.executions, vec![10]);
            assert_eq!(callbacks.files, vec![2]);
        }
        _ => panic!("expected Evaluate"),
    }
}

#[test]
fn ask_file_uploads_provided_path() {
    let (mut client, _) = ExecutorClient::new(sample_dag());
    match client.handle(ServerEvent::AskFile(1)) {
        ClientAction::Upload { uuid, local_path } => {
            assert_eq!(uuid, 1);
            assert_eq!(local_path, "/tmp/input.txt");
        }
        _ => panic!("expected an upload"),
    }
    assert!(matches!(client.handle(ServerEvent::AskFile(42)), ClientAction::Abort(_)));
}

#[test]
fn callbacks_fire_at_most_once() {
    let (mut client, _) = ExecutorClient::new(sample_dag());
    match client.handle(ServerEvent::NotifyStart(10, 77)) {
        ClientAction::RunStart(cb, worker) => {
            assert_eq!(cb, "start");
            assert_eq!(worker, 77);
        }
        _ => panic!("expected the start callback"),
    }
    assert!(matches!(client.handle(ServerEvent::NotifyStart(10, 77)), ClientAction::Nothing));
    assert!(matches!(client.handle(ServerEvent::NotifyDone(10, result())), ClientAction::RunDone("done", _)));
    assert!(matches!(client.handle(ServerEvent::NotifyDone(10, result())), ClientAction::Nothing));
    assert!(matches!(client.handle(ServerEvent::NotifySkip(10)), ClientAction::Nothing));
    assert!(matches!(client.handle(ServerEvent::NotifySkip(11)), ClientAction::Nothing));
}

#[test]
fn provided_output_is_written() {
    let (mut client, _) = ExecutorClient::new(sample_dag());
    match client.handle(ServerEvent::ProvideFile(2)) {
        ClientAction::ReceiveFile { uuid, write_to, get_content } => {
            assert_eq!(uuid, 2);
            assert_eq!(write_to, Some("/out".to_string()));
            assert!(get_content.is_none());
        }
        _ => panic!("expected to receive the file"),
    }
}

#[test]
fn done_then_disconnect_is_success() {
    let (mut client, _) = ExecutorClient::new(sample_dag());
    assert!(matches!(client.handle(ServerEvent::Status), ClientAction::Nothing));
    assert!(matches!(client.handle(ServerEvent::Done), ClientAction::Finish));
    assert!(matches!(client.handle(ServerEvent::Disconnected), ClientAction::Finish));
}

#[test]
fn disconnect_before_done_is_failure() {
    let (mut client, _) = ExecutorClient::new(sample_dag());
    assert!(matches!(client.handle(ServerEvent::Disconnected), ClientAction::Abort(_)));
}

#[test]
fn server_error_aborts() {
    let (mut client, _) = ExecutorClient::new(sample_dag());
    match client.handle(ServerEvent::Error("boom".to_string())) {
        ClientAction::Abort(m) => assert_eq!(m, "boom"),
        _ => panic!("expected abort"),
    }
}

#[test]
fn content_prefix_takes_first_bytes() {
    let content = b"hello\n".to_vec();
    assert_eq!(content_prefix(&content, 3), b"hel".to_vec());
    assert_eq!(content_prefix(&content, 100), content);
    assert_eq!(content_prefix(&content, 0), Vec::<u8>::new());
}
