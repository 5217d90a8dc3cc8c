use noyalib::cli::noyavalidate::{parse_args, Action};

fn argv(parts: &[&str]) -> Vec<String> {
    std::iter::once("noyavalidate".to_string())
        .chain(parts.iter().map(|s| s.to_string()))
        .collect()
}

fn validate(a: Action) -> (Option<String>, bool) {
    match a {
        Action::Validate { path, quiet } => (path, quiet),
        _ => panic!("expected a validation request"),
    }
}

fn error(a: Action) -> String {
    match a {
        Action::Error(m) => m,
        _ => panic!("expected a usage error"),
    }
}

#[test]
fn no_arguments_reads_stdin() {
    assert_eq!(validate(parse_args(argv(&[]))), (None, false));
    assert_eq!(validate(parse_args(Vec::new())), (None, false));
}

#[test]
fn file_and_quiet_flag() {
    assert_eq!(
        validate(parse_args(argv(&["-q", "doc.yaml"]))),
        (Some("doc.yaml".to_string()), true)
    );
    assert_eq!(
        validate(parse_args(argv(&["doc.yaml", "--quiet"]))),
        (Some("doc.yaml".to_string()), true)
    );
}

#[test]
fn help_and_version_win() {
    assert!(matches!(parse_args(argv(&["-h"])), Action::Help));
    assert!(matches!(parse_args(argv(&["x.yaml", "--version"])), Action::Version));
}

#[test]
fn double_dash_takes_one_file() {
    assert_eq!(
        validate(parse_args(argv(&["--", "-odd.yaml"]))),
        (Some("-odd.yaml".to_string()), false)
    );
    assert_eq!(error(parse_args(argv(&["--", "a", "b"]))), "too many positional arguments");
    assert_eq!(error(parse_args(argv(&["a", "--", "b"]))), "too many positional arguments");
    assert_eq!(validate(parse_args(argv(&["--"]))), (None, false));
}

#[test]
fn usage_errors() {
    assert_eq!(error(parse_args(argv(&["a", "b"]))), "too many positional arguments");
    assert_eq!(error(parse_args(argv(&["--bogus"]))), "unknown option: --bogus");
    assert_eq!(
        error(parse_args(argv(&["-", "a.yaml"]))),
        "cannot combine '-' with a FILE argument"
    );
    assert_eq!(validate(parse_args(argv(&["-"]))), (None, false));
}
