use amail_bridge::cli::{log_destination, parse_args, parse_args_from, run_mode, Command, Mode};

fn args(list: &[&str]) -> Vec<String> {
    list.iter().map(|s| s.to_string()).collect()
}

#[test]
fn test_parse_args_default() {
    let cli = parse_args_from(&["amail-bridge".into()]);
    assert!(!cli.daemon);
    assert!(cli.pid_file.is_none());
    assert!(cli.log_file.is_none());
    assert!(cli.config_path.is_none());
}

#[test]
fn test_parse_args_daemon() {
    let cli = parse_args_from(&["amail-bridge".into(), "--daemon".into()]);
    assert!(cli.daemon);
}

#[test]
fn test_parse_args_config() {
    let cli = parse_args_from(&["amail-bridge".into(), "-c".into(), "/tmp/test.toml".into()]);
    assert_eq!(cli.config_path, Some("/tmp/test.toml".into()));
}

#[test]
fn test_parse_args_pid_file() {
    let cli = parse_args_from(&[
        "amail-bridge".into(),
        "--pid-file".into(),
        "/var/run/bridge.pid".into(),
    ]);
    assert_eq!(cli.pid_file, Some("/var/run/bridge.pid".into()));
}

#[test]
fn test_parse_args_log_file() {
    let cli = parse_args_from(&[
        "amail-bridge".into(),
        "--log-file".into(),
        "/var/log/bridge.log".into(),
    ]);
    assert_eq!(cli.log_file, Some("/var/log/bridge.log".into()));
}

#[test]
fn unknown_arguments_are_passed_over() {
    let cli = parse_args_from(&args(&["x", "what", "-d", "-c", "--daemon", "-h"]));
    assert!(cli.daemon);
    assert_eq!(cli.config_path, Some("--daemon".into()));
    assert!(!parse_args_from(&[]).daemon);
}

#[test]
fn command_lines() {
    match parse_args(&args(&["x", "--config", "a", "-d", "-c", "b"])) {
        Command::Run(cli) => {
            assert!(cli.daemon);
            assert_eq!(cli.config_path, Some("b".into()));
        }
        other => panic!("{:?}", other),
    }
    assert!(matches!(parse_args(&args(&["x", "-d", "--help", "what"])), Command::Help));
    assert!(matches!(parse_args(&args(&["x", "-h"])), Command::Help));
    match parse_args(&args(&["x", "what", "--help"])) {
        Command::UnknownFlag(f) => assert_eq!(f, "what"),
        other => panic!("{:?}", other),
    }
    match parse_args(&args(&["x", "--pid-file"])) {
        Command::MissingValue(f) => assert_eq!(f, "--pid-file"),
        other => panic!("{:?}", other),
    }
}

#[test]
fn places_of_files() {
    let cli = parse_args_from(&args(&["x", "--log-file", "/l"]));
    assert_eq!(cli.pid_path(Some("/home/u")), "/home/u/.hermes/amail-bridge.pid");
    assert_eq!(cli.pid_path(None), "/tmp/.hermes/amail-bridge.pid");
    assert_eq!(cli.log_path(Some("/home/u")), "/l");
}

#[test]
fn log_goes_where_it_should() {
    assert_eq!(log_destination(true, "/d", Some("/c")), Some("/d".to_string()));
    assert_eq!(log_destination(false, "/d", Some("/c")), Some("/c".to_string()));
    assert_eq!(log_destination(false, "/d", None), None);
}

#[test]
fn modes() {
    assert_eq!(run_mode("push"), Ok(Mode::Push));
    assert_eq!(run_mode("pull"), Ok(Mode::Pull));
    assert_eq!(run_mode("both"), Err("Unknown mode: both".to_string()));
}
