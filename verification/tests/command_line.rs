use lib::args::{get_args, ArgsOutcome, ArgErrorKind, refusal_message, usage_text, parse_number_bytes};

fn args(list: &[&str]) -> Vec<Vec<u8>> {
    list.iter().map(|s| s.as_bytes().to_vec()).collect()
}

fn run_config(list: &[&str]) -> (String, u64, String) {
    match get_args(&args(list)) {
        ArgsOutcome::Run { ip, port, www } => {
            (String::from_utf8(ip).unwrap(), port, String::from_utf8(www).unwrap())
        }
        _ => panic!("expected a configuration"),
    }
}

fn refused(list: &[&str]) -> (ArgErrorKind, String) {
    match get_args(&args(list)) {
        ArgsOutcome::Refused { kind, name } => (kind, String::from_utf8(name).unwrap()),
        _ => panic!("expected a refusal"),
    }
}

#[test]
fn defaults_without_options() {
    assert_eq!(run_config(&[]), ("127.0.0.1".to_string(), 4414, "./www".to_string()));
    assert_eq!(run_config(&["free", "-"]), ("127.0.0.1".to_string(), 4414, "./www".to_string()));
}

#[test]
fn options_with_values() {
    assert_eq!(
        run_config(&["--ip", "0.0.0.0", "--port", "8080", "--www", "/srv"]),
        ("0.0.0.0".to_string(), 8080, "/srv".to_string())
    );
    assert_eq!(run_config(&["--port=+99", "--ip=1.2=3"]), ("1.2".to_string(), 99, "./www".to_string()));
    assert_eq!(run_config(&["--www", "--port"]), ("127.0.0.1".to_string(), 4414, "--port".to_string()));
    assert_eq!(run_config(&["--", "--bogus", "-h"]), ("127.0.0.1".to_string(), 4414, "./www".to_string()));
}

#[test]
fn help_flags() {
    assert!(matches!(get_args(&args(&["-h"])), ArgsOutcome::Help));
    assert!(matches!(get_args(&args(&["--help"])), ArgsOutcome::Help));
    assert!(matches!(get_args(&args(&["--port", "abc", "-h"])), ArgsOutcome::Help));
}

#[test]
fn refused_command_lines() {
    assert_eq!(refused(&["--bogus"]), (ArgErrorKind::UnrecognizedOption, "bogus".to_string()));
    assert_eq!(refused(&["-x"]), (ArgErrorKind::UnrecognizedOption, "x".to_string()));
    assert_eq!(refused(&["-hé"]), (ArgErrorKind::UnrecognizedOption, "é".to_string()));
    assert_eq!(refused(&["--port"]), (ArgErrorKind::ArgumentMissing, "port".to_string()));
    assert_eq!(refused(&["--help=yes"]), (ArgErrorKind::UnexpectedArgument, "help".to_string()));
    assert_eq!(refused(&["--ip", "a", "--ip=b"]), (ArgErrorKind::OptionDuplicated, "ip".to_string()));
    assert_eq!(refused(&["-hh"]), (ArgErrorKind::OptionDuplicated, "h".to_string()));
    assert_eq!(refused(&["--h"]), (ArgErrorKind::UnrecognizedOption, "h".to_string()));
}

#[test]
fn bad_ports() {
    assert!(matches!(get_args(&args(&["--port", "44x"])), ArgsOutcome::BadPort));
    assert!(matches!(get_args(&args(&["--port="])), ArgsOutcome::BadPort));
    assert!(matches!(get_args(&args(&["--port", "-1"])), ArgsOutcome::BadPort));
    assert!(matches!(get_args(&args(&["--port", "18446744073709551616"])), ArgsOutcome::BadPort));
    assert_eq!(parse_number_bytes(&b"18446744073709551615".to_vec()), Some(u64::MAX));
    assert_eq!(parse_number_bytes(&b"+".to_vec()), None);
    assert_eq!(parse_number_bytes(&b"007".to_vec()), Some(7));
}

#[test]
fn messages() {
    assert_eq!(
        refusal_message(ArgErrorKind::ArgumentMissing, &b"port".to_vec()),
        b"Argument to option 'port' missing.".to_vec()
    );
    assert_eq!(
        refusal_message(ArgErrorKind::UnrecognizedOption, &b"x".to_vec()),
        b"Unrecognized option: 'x'.".to_vec()
    );
    assert_eq!(
        refusal_message(ArgErrorKind::OptionDuplicated, &b"ip".to_vec()),
        b"Option 'ip' given more than once.".to_vec()
    );
    assert_eq!(
        refusal_message(ArgErrorKind::UnexpectedArgument, &b"help".to_vec()),
        b"Option 'help' does not take an argument.".to_vec()
    );
    assert_eq!(
        usage_text(&b"zhtta".to_vec()),
        b"Usage: zhtta [options]\n--ip     \tIP address, \"127.0.0.1\" by default.\n--port   \tport number, \"4414\" by default.\n--www    \tworking directory, \"./www\" by default\n-h --help \tUsage\n".to_vec()
    );
}
