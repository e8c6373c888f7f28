use durascan::pipe::{ReaderType, WriterType};
use durascan::telemetry::{deduplicate, root_trace_id, Config, Telemetry, TelemetryEnabled};

fn enabled_config() -> TelemetryEnabled {
    TelemetryEnabled {
        telemetry_server: Some("https://server.example".to_string()),
        monitoring_server: None,
        logging_servers: vec![],
        tracing_servers: vec!["https://server.example".to_string()],
        metrics_servers: vec!["https://server.example".to_string()],
        service_name: "engine".to_string(),
        service_version: "1.0.0".to_string(),
        service_namespace: "local-dev".to_string(),
        service_instance_id: "instance-local-dev".to_string(),
        run_id: "run-1".to_string(),
        trace_parent: None,
        license_key: "SECRET-REDACTED".to_string(),
        periodic_reader_interval: 60,
    }
}

#[test]
fn test_telemetry_new_keeps_config() {
    let telemetry = Telemetry::new(Box::new(enabled_config()));
    assert_eq!(telemetry.config.run_id, "run-1".to_string());
    assert_eq!(telemetry.config.periodic_reader_interval, 60);
    let config = Config::Enabled(Box::new(enabled_config()));
    assert!(matches!(config, Config::Enabled(_)));
    assert!(matches!(Config::Disabled, Config::Disabled));
}

#[test]
fn test_root_trace_id_extracts_second_field() {
    assert_eq!(
        root_trace_id(Some("00-4bf92f3577b34da6a3ce929d0e0e4736-00f067aa0ba902b7-01")),
        Some("4bf92f3577b34da6a3ce929d0e0e4736")
    );
    assert_eq!(root_trace_id(Some("a-b")), Some("b"));
    assert_eq!(root_trace_id(Some("a-")), Some(""));
    assert_eq!(root_trace_id(None), None);
}

#[test]
fn test_deduplicate_sorts_and_drops_duplicates() {
    let input = vec![
        Some("beta".to_string()),
        None,
        Some("alpha".to_string()),
        Some("beta".to_string()),
        None,
    ];
    assert_eq!(
        deduplicate(input),
        vec!["alpha".to_string(), "beta".to_string()]
    );
    assert_eq!(deduplicate(vec![None, None]), Vec::<String>::new());
}

#[test]
fn test_pipe_end_types() {
    let r = ReaderType::NonBlocking;
    let w = WriterType::Blocking;
    assert!(matches!(r, ReaderType::NonBlocking));
    assert!(matches!(w, WriterType::Blocking));
    assert!(matches!(r.clone(), ReaderType::NonBlocking));
}
