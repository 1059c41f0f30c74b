use rerun::argparse::{parse_u64, ArgError, CliArgs};

fn args(s: &[&str]) -> Vec<String> {
    s.iter().map(|s| s.to_string()).collect()
}

#[test]
fn defaults() {
    let cli = CliArgs::parse_from(args(&["--", "echo", "hi"])).unwrap();
    assert_eq!(cli.path, ".");
    assert!(cli.ext.is_empty());
    assert_eq!(cli.debounce_ms, 200);
    assert_eq!(cli.command, vec!["echo", "hi"]);
}

#[test]
fn all_flags() {
    let cli = CliArgs::parse_from(args(&[
        "-p", "src", "-e", "rs,toml", "-d", "500", "--", "cargo", "test",
    ]))
    .unwrap();
    assert_eq!(cli.path, "src");
    assert_eq!(cli.ext, vec!["rs", "toml"]);
    assert_eq!(cli.debounce_ms, 500);
    assert_eq!(cli.command, vec!["cargo", "test"]);
}

#[test]
fn long_flags() {
    let cli = CliArgs::parse_from(args(&[
        "--path",
        "lib",
        "--ext",
        "js,ts",
        "--debounce",
        "100",
        "--",
        "node",
        "index.js",
    ]))
    .unwrap();
    assert_eq!(cli.path, "lib");
    assert_eq!(cli.ext, vec!["js", "ts"]);
    assert_eq!(cli.debounce_ms, 100);
    assert_eq!(cli.command, vec!["node", "index.js"]);
}

#[test]
fn no_command_errors() {
    let err = CliArgs::parse_from(args(&[])).unwrap_err();
    assert!(err.message().contains("no command specified"));
}

#[test]
fn missing_flag_value_errors() {
    let err = CliArgs::parse_from(args(&["-p"])).unwrap_err();
    assert!(err.message().contains("missing value"));
}

#[test]
fn unknown_flag_errors() {
    let err = CliArgs::parse_from(args(&["-x", "--", "ls"])).unwrap_err();
    assert!(err.message().contains("unknown option"));
}

#[test]
fn bare_arg_errors() {
    let err = CliArgs::parse_from(args(&["foo", "--", "ls"])).unwrap_err();
    assert!(err.message().contains("unexpected argument"));
}

#[test]
fn bad_debounce_errors() {
    let err = CliArgs::parse_from(args(&["-d", "abc", "--", "ls"])).unwrap_err();
    assert!(err.message().contains("invalid debounce value"));
}

#[test]
fn single_ext() {
    let cli = CliArgs::parse_from(args(&["-e", "rs", "--", "cargo", "build"])).unwrap();
    assert_eq!(cli.ext, vec!["rs"]);
}

#[test]
fn error_variants_and_messages() {
    let err = CliArgs::parse_from(args(&["-p"])).unwrap_err();
    assert_eq!(err, ArgError::MissingValue("-p".to_string()));
    assert_eq!(err.message(), "missing value for -p");

    let err = CliArgs::parse_from(args(&["--debounce"])).unwrap_err();
    assert_eq!(err.message(), "missing value for --debounce");

    let err = CliArgs::parse_from(args(&["-d", "abc", "--", "ls"])).unwrap_err();
    assert_eq!(err, ArgError::InvalidDebounce("abc".to_string()));
    assert_eq!(err.message(), "invalid debounce value: abc");

    let err = CliArgs::parse_from(args(&["-x", "--", "ls"])).unwrap_err();
    assert_eq!(err.message(), "unknown option: -x");

    let err = CliArgs::parse_from(args(&["foo", "--", "ls"])).unwrap_err();
    assert_eq!(
        err.message(),
        "unexpected argument: foo\nCommands must be passed after \"--\""
    );

    let err = CliArgs::parse_from(args(&[])).unwrap_err();
    assert_eq!(err, ArgError::NoCommand);
    assert_eq!(
        err.message(),
        "no command specified\n\nUsage: rerun [OPTIONS] -- <COMMAND>..."
    );
}

#[test]
fn separator_without_command_errors() {
    let err = CliArgs::parse_from(args(&["-p", "src", "--"])).unwrap_err();
    assert_eq!(err, ArgError::NoCommand);
}

#[test]
fn help_flag_asks_for_usage() {
    assert_eq!(
        CliArgs::parse_from(args(&["-h"])).unwrap_err(),
        ArgError::Help
    );
    assert_eq!(
        CliArgs::parse_from(args(&["-p", "src", "--help", "--", "ls"])).unwrap_err(),
        ArgError::Help
    );
    let text = ArgError::Help.message();
    assert!(text.contains("Usage: rerun [OPTIONS] -- <COMMAND>..."));
    assert_eq!(text, rerun::argparse::usage());
}

#[test]
fn option_value_may_look_like_an_option() {
    // the value after -p is taken whatever it is, "--" and "-h" included
    let cli = CliArgs::parse_from(args(&["-p", "--", "--", "-h"])).unwrap();
    assert_eq!(cli.path, "--");
    assert_eq!(cli.command, vec!["-h"]);
}

#[test]
fn later_flag_replaces_earlier() {
    let cli = CliArgs::parse_from(args(&["-d", "10", "-d", "20", "-e", "a", "-e", "b,c", "--", "x"]))
        .unwrap();
    assert_eq!(cli.debounce_ms, 20);
    assert_eq!(cli.ext, vec!["b", "c"]);
}

#[test]
fn command_keeps_everything_after_separator() {
    let cli = CliArgs::parse_from(args(&["--", "sh", "-c", "echo -- -p"])).unwrap();
    assert_eq!(cli.command, vec!["sh", "-c", "echo -- -p"]);
}

#[test]
fn ext_pieces_keep_empty_ones() {
    let cli = CliArgs::parse_from(args(&["-e", ",rs,,", "--", "x"])).unwrap();
    assert_eq!(cli.ext, vec!["", "rs", "", ""]);
    assert_eq!(cli.ext.join(","), ",rs,,");
}

#[test]
fn debounce_numbers_as_u64_reads_them() {
    let ok = |v: &str| CliArgs::parse_from(args(&["-d", v, "--", "x"])).map(|c| c.debounce_ms);
    assert_eq!(ok("+7"), Ok(7));
    assert_eq!(ok("007"), Ok(7));
    assert_eq!(ok("0"), Ok(0));
    assert_eq!(ok("18446744073709551615"), Ok(u64::MAX));
    assert!(ok("18446744073709551616").is_err());
    assert!(ok("+").is_err());
    assert!(ok("").is_err());
    assert!(ok("-1").is_err());
    assert!(ok("1 ").is_err());
    assert!(ok("1_000").is_err());
}

#[test]
fn parse_u64_matches_std() {
    for s in ["0", "42", "+42", "+", "", "-0", "99999999999999999999", "12a", "٣", "18446744073709551615"] {
        assert_eq!(parse_u64(s), s.parse::<u64>().ok(), "{s}");
    }
}
