//! Checks of the build service's decision functions and the startup-log scan.

use consolidation::{
    check_pipeline_request, exit_action, scan_log_line, should_cancel_job, ExitAction, JobStage,
    LogEvent, ProjectStatus, RequestCheck,
};

#[test]
fn request_check_outcomes() {
    assert_eq!(check_pipeline_request(None, 3), RequestCheck::UnknownProject);
    assert_eq!(
        check_pipeline_request(Some((4, ProjectStatus::Success)), 3),
        RequestCheck::VersionMismatch(4)
    );
    assert_eq!(
        check_pipeline_request(Some((3, ProjectStatus::Pending)), 3),
        RequestCheck::NotYetCompiled
    );
    assert_eq!(
        check_pipeline_request(Some((3, ProjectStatus::Success)), 3),
        RequestCheck::Accepted
    );
    // the version is checked before the status
    assert_eq!(
        check_pipeline_request(Some((4, ProjectStatus::Pending)), 3),
        RequestCheck::VersionMismatch(4)
    );
}

#[test]
fn cancel_decision() {
    assert!(should_cancel_job(2, None));
    assert!(should_cancel_job(2, Some((3, ProjectStatus::Compiling))));
    assert!(should_cancel_job(2, Some((2, ProjectStatus::Pending))));
    assert!(!should_cancel_job(2, Some((2, ProjectStatus::Compiling))));
}

#[test]
fn exit_actions() {
    assert_eq!(exit_action(JobStage::Sql, true), ExitAction::StartRustStage);
    assert_eq!(exit_action(JobStage::Rust, true), ExitAction::MarkSuccess);
    assert_eq!(exit_action(JobStage::Sql, false), ExitAction::MarkError);
    assert_eq!(exit_action(JobStage::Rust, false), ExitAction::MarkError);
}

#[test]
fn log_scan_finds_the_port() {
    let line = b"2024-01-01 Started HTTP server on port 8087";
    assert_eq!(scan_log_line(line), LogEvent::PortAnnounced(8087));
}

#[test]
fn log_scan_rejects_bad_ports() {
    assert_eq!(
        scan_log_line(b"Started HTTP server on port banana"),
        LogEvent::InvalidPort
    );
    assert_eq!(
        scan_log_line(b"Started HTTP server on port 70000"),
        LogEvent::InvalidPort
    );
    assert_eq!(
        scan_log_line(b"Started HTTP server on port 123456789123456789"),
        LogEvent::InvalidPort
    );
}

#[test]
fn log_scan_port_range_boundary() {
    assert_eq!(
        scan_log_line(b"Started HTTP server on port 65535"),
        LogEvent::PortAnnounced(65535)
    );
    assert_eq!(
        scan_log_line(b"Started HTTP server on port 65536"),
        LogEvent::InvalidPort
    );
    assert_eq!(
        scan_log_line(b"Started HTTP server on port 00080!"),
        LogEvent::PortAnnounced(80)
    );
}

#[test]
fn log_scan_reports_server_errors() {
    let line = b"oops: Failed to create server because of reasons";
    match scan_log_line(line) {
        LogEvent::ServerError(at) => {
            assert_eq!(&line[at..], b"Failed to create server because of reasons" as &[u8]);
        }
        other => panic!("unexpected event {other:?}"),
    }
}

#[test]
fn log_scan_ignores_other_lines() {
    assert_eq!(scan_log_line(b"listening intently"), LogEvent::Nothing);
    assert_eq!(scan_log_line(b""), LogEvent::Nothing);
    // an announcement with nothing after the marker falls through to the
    // failure check
    assert_eq!(
        scan_log_line(b"Started HTTP server on port "),
        LogEvent::Nothing
    );
}
