use lab2::cwd_args;
use lab2::tree_args;

fn args(v: &[&str]) -> Vec<String> {
    v.iter().map(|s| s.to_string()).collect()
}

#[test]
fn cwd_no_options() {
    assert_eq!(cwd_args::parse_arguments(&args(&["prog"])), (None, None));
    assert_eq!(cwd_args::parse_arguments(&args(&[])), (None, None));
    assert!(cwd_args::argument_warnings(&args(&["prog"])).is_empty());
}

#[test]
fn cwd_root_and_work() {
    let a = args(&["prog", "--root", "/srv", "--work", "/srv/www"]);
    assert_eq!(
        cwd_args::parse_arguments(&a),
        (Some("/srv".to_string()), Some("/srv/www".to_string()))
    );
    assert!(cwd_args::argument_warnings(&a).is_empty());
}

#[test]
fn cwd_later_option_overrides() {
    let a = args(&["prog", "--root", "/a", "--root", "/b"]);
    assert_eq!(cwd_args::parse_arguments(&a), (Some("/b".to_string()), None));
}

#[test]
fn cwd_option_without_value_clears() {
    let a = args(&["prog", "--work", "/w", "--work"]);
    assert_eq!(cwd_args::parse_arguments(&a), (None, None));
    let b = args(&["prog", "--root"]);
    assert_eq!(cwd_args::parse_arguments(&b), (None, None));
}

#[test]
fn cwd_value_is_not_read_as_option() {
    let a = args(&["prog", "--root", "--work", "x"]);
    assert_eq!(cwd_args::parse_arguments(&a), (Some("--work".to_string()), None));
    assert_eq!(
        cwd_args::argument_warnings(&a),
        vec!["Warning: Unrecognized option x".to_string()]
    );
}

#[test]
fn cwd_unrecognized_options_warned_in_order() {
    let a = args(&["prog", "-x", "--root", "/r", "y"]);
    assert_eq!(cwd_args::parse_arguments(&a), (Some("/r".to_string()), None));
    assert_eq!(
        cwd_args::argument_warnings(&a),
        vec![
            "Warning: Unrecognized option -x".to_string(),
            "Warning: Unrecognized option y".to_string()
        ]
    );
}

#[test]
fn tree_too_few_arguments() {
    let a = args(&["prog"]);
    assert_eq!(tree_args::parse_arguments(&a), (false, false, false, false, None));
    assert_eq!(
        tree_args::argument_messages(&a),
        vec!["Error: Insufficient arguments".to_string()]
    );
    assert_eq!(tree_args::parse_arguments(&args(&[])), (false, false, false, false, None));
}

#[test]
fn tree_directory_only() {
    let a = args(&["prog", "/tmp"]);
    assert_eq!(
        tree_args::parse_arguments(&a),
        (false, false, false, false, Some("/tmp".to_string()))
    );
    assert!(tree_args::argument_messages(&a).is_empty());
}

#[test]
fn tree_all_options() {
    let a = args(&["prog", "-L", "-M", "-B", "-O", "dir"]);
    assert_eq!(
        tree_args::parse_arguments(&a),
        (true, true, true, true, Some("dir".to_string()))
    );
}

#[test]
fn tree_last_argument_is_directory_even_if_option_like() {
    let a = args(&["prog", "-O", "-L"]);
    assert_eq!(
        tree_args::parse_arguments(&a),
        (false, false, false, true, Some("-L".to_string()))
    );
    assert!(tree_args::argument_messages(&a).is_empty());
}

#[test]
fn tree_unknown_options_warned() {
    let a = args(&["prog", "-L", "-z", "--help", "d"]);
    assert_eq!(
        tree_args::parse_arguments(&a),
        (true, false, false, false, Some("d".to_string()))
    );
    assert_eq!(
        tree_args::argument_messages(&a),
        vec![
            "Warning: Unrecognized option -z".to_string(),
            "Warning: Unrecognized option --help".to_string()
        ]
    );
}

#[test]
fn tree_repeated_option() {
    let a = args(&["prog", "-B", "-B", "d"]);
    assert_eq!(
        tree_args::parse_arguments(&a),
        (false, false, true, false, Some("d".to_string()))
    );
}
