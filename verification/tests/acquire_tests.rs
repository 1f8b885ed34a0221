use rla::acquire::FetchAction;
use rla::acquire::FetchEvent;
use rla::acquire::branch_selected;
use rla::acquire::bytes_eq;
use rla::acquire::encode_file_name;
use rla::acquire::next_fetch_action;
use rla::acquire::outcome_selected;

#[test]
fn success_uses_the_log() {
    assert_eq!(next_fetch_action(1, 3, &FetchEvent::Success), FetchAction::UseLog);
    assert_eq!(next_fetch_action(3, 3, &FetchEvent::Success), FetchAction::UseLog);
}

#[test]
fn missing_log_skips_the_job_without_retrying() {
    assert_eq!(next_fetch_action(1, 3, &FetchEvent::Missing), FetchAction::SkipJob);
}

#[test]
fn transient_failure_retries_until_the_bound() {
    assert_eq!(next_fetch_action(1, 3, &FetchEvent::TransientError), FetchAction::Retry);
    assert_eq!(next_fetch_action(2, 3, &FetchEvent::TransientError), FetchAction::Retry);
    assert_eq!(next_fetch_action(3, 3, &FetchEvent::TransientError), FetchAction::SkipJob);
}

#[test]
fn outcome_filter_matches_the_flags() {
    assert!(outcome_selected(false, false, false, false));
    assert!(outcome_selected(true, false, true, false));
    assert!(!outcome_selected(true, false, false, true));
    assert!(outcome_selected(false, true, false, true));
    assert!(!outcome_selected(false, true, true, false));
}

#[test]
fn byte_equality() {
    assert!(bytes_eq(b"abc", b"abc"));
    assert!(!bytes_eq(b"abc", b"abd"));
    assert!(!bytes_eq(b"abc", b"ab"));
    assert!(bytes_eq(b"", b""));
}

#[test]
fn safe_file_name_bytes_pass_through() {
    assert_eq!(encode_file_name(b"job-1.linux_x86"), b"job-1.linux_x86".to_vec());
}

#[test]
fn unsafe_file_name_bytes_become_percent_escapes() {
    assert_eq!(encode_file_name(b"a/b c%"), b"a%2fb%20c%25".to_vec());
    assert_eq!(encode_file_name(b"\xff"), b"%ff".to_vec());
}

#[test]
fn empty_branch_filter_selects_everything() {
    assert!(branch_selected(&Vec::new(), b"main"));
}

#[test]
fn branch_filter_selects_listed_branches_only() {
    let filters = vec![b"main".to_vec(), b"beta".to_vec()];
    assert!(branch_selected(&filters, b"main"));
    assert!(branch_selected(&filters, b"beta"));
    assert!(!branch_selected(&filters, b"nightly"));
}
