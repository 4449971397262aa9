use change_set::submit::{interpret_outcome, submit_args, SubmitError};

#[test]
fn empty_domain_refused_before_any_process() {
    assert_eq!(
        submit_args("alice.json", "").unwrap_err(),
        SubmitError::EmptyDomain
    );
    assert_eq!(
        submit_args("alice.json", "  \t ").unwrap_err(),
        SubmitError::EmptyDomain
    );
}

#[test]
fn args_follow_the_tool_contract() {
    let args = submit_args("alice.json", "dev").unwrap();
    assert_eq!(args, vec!["change-set", "post", "alice.json", "-d", "dev"]);
}

#[test]
fn success_returns_trimmed_stdout() {
    let id = interpret_outcome(true, "1234-5678\n", "").unwrap();
    assert_eq!(id, "1234-5678");
}

#[test]
fn failure_carries_stderr() {
    let err = interpret_outcome(false, "", "not found").unwrap_err();
    assert_eq!(err, SubmitError::ProcessFailed("not found".to_string()));
}

#[test]
fn stdout_trimming_keeps_inner_whitespace() {
    let id = interpret_outcome(true, "  ab cd \r\n", "ignored").unwrap();
    assert_eq!(id, "ab cd");
}

#[test]
fn submit_messages() {
    assert_eq!(SubmitError::EmptyDomain.message(), "Error: Domain field is empty.");
    assert_eq!(
        SubmitError::SpawnError("no such file".to_string()).message(),
        "Failed to execute command: no such file"
    );
    assert_eq!(
        SubmitError::ProcessFailed("not found".to_string()).message(),
        "Command execution failed: not found"
    );
}
