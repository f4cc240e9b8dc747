use task_maker::remote::{next_connect_step, parse_server_url, server_address, ConnectOutcome, ConnectStep, RemoteError};

#[test]
fn full_url_is_parsed() {
    let a = match parse_server_url("tcp://secret@example.com:1234", 27182) {
        Ok(a) => a,
        Err(_) => panic!("expected an address"),
    };
    assert_eq!(a.host, "example.com");
    assert_eq!(a.port, 1234);
    assert_eq!(a.password, Some("secret".to_string()));
}

#[test]
fn bare_host_gets_tcp_and_default_port() {
    let a = match parse_server_url("example.com", 27182) {
        Ok(a) => a,
        Err(_) => panic!("expected an address"),
    };
    assert_eq!(a.host, "example.com");
    assert_eq!(a.port, 27182);
    assert_eq!(a.password, None);
}

#[test]
fn url_password_is_taken_as_is() {
    let a = match parse_server_url("tcp://user:pw@example.com", 1) {
        Ok(a) => a,
        Err(_) => panic!("expected an address"),
    };
    assert_eq!(a.password, Some("pw".to_string()));
    assert_eq!(a.port, 1);
}

#[test]
fn trailing_slash_is_accepted() {
    assert!(parse_server_url("tcp://example.com:99/", 1).is_ok());
}

#[test]
fn other_scheme_is_rejected() {
    match parse_server_url("http://example.com", 1) {
        Err(RemoteError::UnsupportedScheme(s)) => assert_eq!(s, "http"),
        _ => panic!("expected an unsupported scheme"),
    }
}

#[test]
fn path_is_rejected() {
    match parse_server_url("tcp://example.com/some/path", 1) {
        Err(RemoteError::PathNotAllowed(p)) => assert_eq!(p, "/some/path"),
        _ => panic!("expected a refused path"),
    }
}

#[test]
fn missing_host_is_rejected() {
    assert!(matches!(
        server_address("tcp".to_string(), None, None, String::new(), String::new(), None, 5),
        Err(RemoteError::MissingHost)
    ));
}

#[test]
fn connect_steps() {
    assert!(matches!(next_connect_step(0, 2, ConnectOutcome::Connected), ConnectStep::Connected));
    assert!(matches!(next_connect_step(0, 2, ConnectOutcome::IoError("x".to_string())), ConnectStep::TryAddress(1)));
    assert!(matches!(next_connect_step(1, 2, ConnectOutcome::IoError("x".to_string())), ConnectStep::Fail(_)));
    match next_connect_step(0, 3, ConnectOutcome::OtherError("wrong password".to_string())) {
        ConnectStep::Fail(m) => assert_eq!(m, "wrong password"),
        _ => panic!("expected failure"),
    }
}
