use cxpk::cli::{parse_command, parse_number, Command};

fn command(args: &[&str]) -> Command {
    let list: Vec<String> = args.iter().map(|arg| arg.to_string()).collect();
    parse_command(&list, 8)
}

fn threads(args: &[&str]) -> usize {
    let mut all = vec!["cxpk", "pack", "in", "out"];
    all.extend_from_slice(args);
    match command(&all) {
        Command::Pack { assets, output, threads } => {
            assert_eq!(assets, "in");
            assert_eq!(output, "out");
            threads
        }
        _ => panic!("no packing"),
    }
}

#[test]
fn help_is_shown() {
    assert!(matches!(command(&[]), Command::Help));
    assert!(matches!(command(&["cxpk"]), Command::Help));
    assert!(matches!(command(&["cxpk", "pack", "a", "b", "-h"]), Command::Help));
    assert!(matches!(command(&["cxpk", "--help", "pack"]), Command::Help));
    assert!(matches!(command(&["-h", "pack", "a", "b"]), Command::Help));
    assert!(matches!(command(&["cxpk", "pack", "a"]), Command::Help));
    assert!(matches!(command(&["cxpk", "unpack", "a"]), Command::Help));
}

#[test]
fn unpacking_and_unknown_commands() {
    match command(&["cxpk", "unpack", "a.cxpk", "dir", "-j3"]) {
        Command::Unpack { input, output } => {
            assert_eq!(input, "a.cxpk");
            assert_eq!(output, "dir");
        }
        _ => panic!("no unpacking"),
    }
    match command(&["cxpk", "Pack", "a", "b"]) {
        Command::Unknown { command } => assert_eq!(command, "Pack"),
        _ => panic!("known"),
    }
}

#[test]
fn threads_of_a_packing() {
    assert_eq!(threads(&[]), 8);
    assert_eq!(threads(&["-j", "3"]), 3);
    assert_eq!(threads(&["-j3"]), 3);
    assert_eq!(threads(&["-j+3"]), 3);
    assert_eq!(threads(&["-j", "x", "-j2"]), 2);
    assert_eq!(threads(&["-j", "-j2"]), 2);
    assert_eq!(threads(&["-j"]), 8);
    assert_eq!(threads(&["-jx"]), 8);
    assert_eq!(threads(&["-j2", "-j", "5", "other"]), 5);
    assert_eq!(threads(&["-j", "0"]), 0);
    assert_eq!(threads(&["j3", "--j3"]), 8);
}

#[test]
fn numbers() {
    assert_eq!(parse_number("0"), Some(0));
    assert_eq!(parse_number("007"), Some(7));
    assert_eq!(parse_number("+12"), Some(12));
    assert_eq!(parse_number(""), None);
    assert_eq!(parse_number("+"), None);
    assert_eq!(parse_number("-1"), None);
    assert_eq!(parse_number("++1"), None);
    assert_eq!(parse_number(" 1"), None);
    assert_eq!(parse_number("1a"), None);
    assert_eq!(parse_number(&format!("{}", usize::MAX)), Some(usize::MAX));
    assert_eq!(parse_number(&format!("{}0", usize::MAX)), None);
    assert_eq!(parse_number("18446744073709551616"), None);
    assert_eq!(parse_number("99999999999999999999999999999999999999999999"), None);
    for text in ["0", "+5", "12", "", "+", "-0", "1_0", "\u{661}"] {
        assert_eq!(parse_number(text), text.parse::<usize>().ok());
    }
}
