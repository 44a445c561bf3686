use gitters::branch;
use gitters::cli;

#[test]
fn current_branch_follows_head() {
    assert_eq!(
        branch::current_branch("ref: refs/heads/master\n"),
        Ok("master".to_string())
    );
    assert_eq!(
        branch::current_branch("ref: refs/heads/feature/nested\n"),
        Ok("feature/nested".to_string())
    );
}

#[test]
fn detached_head_is_not_a_branch() {
    assert_eq!(
        branch::current_branch("41cf28e8cac50f5cfeda40cfbfdd049763541c5a\n"),
        Err(branch::Error::BranchReadError)
    );
    assert_eq!(
        branch::current_branch("ref: refs/tags/v1\n"),
        Err(branch::Error::BranchReadError)
    );
}

#[test]
fn wrap_with_status_attaches_the_status() {
    let ok: Result<u32, String> = Ok(7);
    assert_eq!(cli::wrap_with_status(ok, 1).unwrap(), 7);

    let err: Result<u32, String> = Err("broken".to_string());
    match cli::wrap_with_status(err, 2) {
        Err(e) => {
            assert_eq!(e.message, "broken");
            assert_eq!(e.status, 2);
        }
        _ => panic!("expected the failure to pass through"),
    }
}

#[test]
fn success_is_ok() {
    assert!(cli::success().is_ok());
}
