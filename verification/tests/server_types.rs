//! Checks of the project-status column codec and the runner's path builders.

use consolidation::{ProjectStatus, RunnerConfig};

#[test]
fn from_columns_decodes_every_status_word() {
    assert_eq!(
        ProjectStatus::from_columns(None, None),
        Ok(ProjectStatus::NotCompiled)
    );
    assert_eq!(
        ProjectStatus::from_columns(Some("success"), None),
        Ok(ProjectStatus::Success)
    );
    assert_eq!(
        ProjectStatus::from_columns(Some("pending"), None),
        Ok(ProjectStatus::Pending)
    );
    assert_eq!(
        ProjectStatus::from_columns(Some("compiling"), None),
        Ok(ProjectStatus::Compiling)
    );
    assert_eq!(
        ProjectStatus::from_columns(Some("sql_error"), Some("boom".to_string())),
        Ok(ProjectStatus::SqlError("boom".to_string()))
    );
    assert_eq!(
        ProjectStatus::from_columns(Some("rust_error"), Some("kaput".to_string())),
        Ok(ProjectStatus::RustError("kaput".to_string()))
    );
}

#[test]
fn from_columns_missing_error_text_reads_empty() {
    assert_eq!(
        ProjectStatus::from_columns(Some("sql_error"), None),
        Ok(ProjectStatus::SqlError(String::new()))
    );
}

#[test]
fn from_columns_rejects_unknown_words() {
    assert_eq!(
        ProjectStatus::from_columns(Some("exploded"), None),
        Err("exploded".to_string())
    );
}

#[test]
fn to_columns_inverts_from_columns() {
    let all = vec![
        ProjectStatus::NotCompiled,
        ProjectStatus::Success,
        ProjectStatus::Pending,
        ProjectStatus::Compiling,
        ProjectStatus::SqlError("s".to_string()),
        ProjectStatus::RustError("r".to_string()),
    ];
    for status in all {
        let (word, error) = status.to_columns();
        let back = ProjectStatus::from_columns(word.as_deref(), error);
        assert_eq!(back, Ok(status));
    }
}

#[test]
fn to_columns_encodings() {
    assert_eq!(ProjectStatus::NotCompiled.to_columns(), (None, None));
    assert_eq!(
        ProjectStatus::Success.to_columns(),
        (Some("success".to_string()), None)
    );
    assert_eq!(
        ProjectStatus::RustError("e".to_string()).to_columns(),
        (Some("rust_error".to_string()), Some("e".to_string()))
    );
}

#[test]
fn pipeline_paths_carry_the_decimal_id() {
    let config = RunnerConfig {
        pipeline_directory: "/var/run/pipelines".to_string(),
    };
    assert_eq!(config.pipeline_dir(42), "/var/run/pipelines/pipeline42");
    assert_eq!(
        config.config_file_path(42),
        "/var/run/pipelines/pipeline42/config.yaml"
    );
    assert_eq!(
        config.metadata_file_path(0),
        "/var/run/pipelines/pipeline0/metadata.json"
    );
    assert_eq!(
        config.log_file_path(1234567890123),
        "/var/run/pipelines/pipeline1234567890123/pipeline.log"
    );
}

#[test]
fn pipeline_paths_handle_negative_ids() {
    let config = RunnerConfig {
        pipeline_directory: "p".to_string(),
    };
    assert_eq!(config.pipeline_dir(-7), "p/pipeline-7");
    assert_eq!(
        config.pipeline_dir(i64::MIN),
        "p/pipeline-9223372036854775808"
    );
}
