use oombak::interpreter::{interpret, parse_binary, parse_decimal, tokenize, Command};

#[test]
fn empty_line_is_noop() {
    assert!(matches!(interpret(""), Ok(Command::Noop)));
    assert!(matches!(interpret("   \t "), Ok(Command::Noop)));
}

#[test]
fn run_takes_one_duration() {
    assert!(matches!(interpret("run 10"), Ok(Command::Run(10))));
    assert!(matches!(interpret("  run   1  "), Ok(Command::Run(1))));
    assert!(matches!(interpret("run 18446744073709551615"), Ok(Command::Run(u64::MAX))));
}

#[test]
fn run_rejects_bad_durations() {
    assert!(interpret("run").is_err());
    assert!(interpret("run 1 2").is_err());
    assert!(interpret("run x").is_err());
    assert!(interpret("run -1").is_err());
    assert!(interpret("run 18446744073709551616").is_err());
}

#[test]
fn load_takes_one_path() {
    match interpret("load design.so") {
        Ok(Command::Load(p)) => assert_eq!(p, "design.so"),
        _ => panic!("expected a load"),
    }
    assert!(interpret("load").is_err());
    assert!(interpret("load a b").is_err());
}

#[test]
fn set_takes_a_signal_and_a_binary_value() {
    match interpret("set in 10") {
        Ok(Command::SetSignal(n, b)) => {
            assert_eq!(n, "in");
            assert_eq!(b.len(), 2);
            assert!(!b.get(0));
            assert!(b.get(1));
        }
        _ => panic!("expected a set"),
    }
    assert!(interpret("set in 12").is_err());
    assert!(interpret("set in").is_err());
    assert!(interpret("set in 1 0").is_err());
}

#[test]
fn unknown_command_is_an_error() {
    assert!(interpret("jump 1").is_err());
    assert!(interpret("RUN 1").is_err());
}

#[test]
fn every_line_gives_a_command_or_an_error() {
    for line in ["", "run", "run 5", "load x", "set a 1", "???", "\u{e9}\u{e9} 1", "set a \u{e9}"] {
        match interpret(line) {
            Ok(_) => {}
            Err(m) => assert!(!m.is_empty()),
        }
    }
}

#[test]
fn tokens_split_on_whitespace() {
    assert_eq!(tokenize("  a  bc\td "), vec!["a", "bc", "d"]);
    assert!(tokenize("").is_empty());
}

#[test]
fn decimal_and_binary_literals() {
    assert_eq!(parse_decimal("0"), Some(0));
    assert_eq!(parse_decimal("42"), Some(42));
    assert_eq!(parse_decimal(""), None);
    assert_eq!(parse_decimal("4a"), None);
    let b = parse_binary("110").unwrap();
    assert_eq!(b.len(), 3);
    assert!(!b.get(0) && b.get(1) && b.get(2));
    assert!(parse_binary("").is_none());
    assert!(parse_binary("102").is_none());
}
