//! The choice of an output format.
use syspulse::cli::parse_args;
use syspulse::collector::{CollectorError, IoError};
use syspulse::output::influx::InfluxBackend;
use syspulse::output::json::JsonBackend;
use syspulse::output::remote::{GrpcBackend, HttpBackend};
use syspulse::output::table::TableBackend;
use syspulse::output::{BackendType, OutputBackend, OutputError, OutputRouter};

#[test]
fn test_output_backend_switch_all() {
    let mut router = OutputRouter::new(None, None);
    for bt in [
        BackendType::Json,
        BackendType::Table,
        BackendType::Influx,
        BackendType::Http,
        BackendType::Grpc,
    ] {
        router.switch(bt);
        assert_eq!(router.active_type(), bt);
    }
}

#[test]
fn test_backend_type_roundtrip() {
    for v in 0..5 {
        let bt = BackendType::from_usize(v);
        assert_eq!(bt as usize, v);
    }
}

#[test]
fn backend_indices_agree_with_their_positions() {
    for v in 0..5 {
        assert_eq!(BackendType::from_usize(v).index(), v);
    }
    assert_eq!(BackendType::from_usize(5), BackendType::Json);
    assert_eq!(BackendType::from_usize(usize::MAX), BackendType::Json);
}

#[test]
fn line_protocol_is_in_use_at_first() {
    let router = OutputRouter::new(None, None);
    assert_eq!(router.active_type(), BackendType::Influx);
}

#[test]
fn backends_have_words_and_names() {
    let words: Vec<&str> = (0..5).map(|v| BackendType::from_usize(v).as_str()).collect();
    assert_eq!(words, ["json", "table", "influx", "http", "grpc"]);
    assert_eq!(JsonBackend::new().name(), "json");
    assert_eq!(TableBackend::new().name(), "table");
    assert_eq!(InfluxBackend::new().name(), "influx_line_protocol");
    assert_eq!(HttpBackend::new(None).name(), "http");
    assert_eq!(GrpcBackend::new(None).name(), "grpc");
}

#[test]
fn output_errors_say_what_is_wrong() {
    let io = IoError { code: Some(32), message: "Broken pipe".to_string() };
    assert_eq!(OutputError::from(io).message(), "IO: Broken pipe");
    assert_eq!(OutputError::Format("odd".to_string()).message(), "Format: odd");
}

#[test]
fn collector_errors_say_what_is_wrong() {
    let io = IoError { code: None, message: "gone".to_string() };
    assert_eq!(CollectorError::from(io).message(), "IO error: gone");
    assert_eq!(CollectorError::Parse("bad".to_string()).message(), "Parse error: bad");
    assert_eq!(CollectorError::Unsupported("here".to_string()).message(), "Unsupported: here");
}

fn options(args: &[&str]) -> syspulse::cli::Options {
    let mut list = vec!["syspulse".to_string()];
    list.extend(args.iter().map(|a| a.to_string()));
    parse_args(&list)
}

#[test]
fn command_line_defaults() {
    let o = options(&[]);
    assert_eq!(o.interval_ms, 1000);
    assert_eq!(o.backend, BackendType::Influx);
    assert!(o.threshold.is_none());
    assert!(!o.one_shot);
    assert!(!o.help);
    assert!(o.warnings.is_empty());
}

#[test]
fn command_line_values() {
    let o = options(&["-i", "250", "--output", "grpc", "-t", "70.5", "--once"]);
    assert_eq!(o.interval_ms, 250);
    assert_eq!(o.backend, BackendType::Grpc);
    assert_eq!(o.threshold.as_deref(), Some("70.5"));
    assert!(o.one_shot);
    let o = options(&["--interval", "+5", "-o", "table", "--temp-threshold", "hot"]);
    assert_eq!(o.interval_ms, 5);
    assert_eq!(o.backend, BackendType::Table);
    assert_eq!(o.threshold.as_deref(), Some("hot"));
}

#[test]
fn command_line_mistakes() {
    let o = options(&["-i", "fast", "-o", "xml", "--verbose", "-o"]);
    assert_eq!(o.interval_ms, 1000);
    assert_eq!(o.backend, BackendType::Influx);
    assert_eq!(o.warnings, ["unknown backend: xml, using influx", "unknown arg: --verbose"]);
    let o = options(&["-i", "18446744073709551616"]);
    assert_eq!(o.interval_ms, 1000);
    let o = options(&["-i", "-o"]);
    assert_eq!(o.interval_ms, 1000);
    assert!(o.warnings.is_empty());
}

#[test]
fn command_line_help_ends_the_reading() {
    let o = options(&["--once", "-h", "--nonsense"]);
    assert!(o.help);
    assert!(o.one_shot);
    assert!(o.warnings.is_empty());
    assert!(options(&["--help"]).help);
}
