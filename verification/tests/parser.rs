use waldb::command::Command;
use waldb::command_parser::parse;

#[test]
fn test_command_read() {
    match parse("read hoge") {
        Ok(Command::Read { key }) => {
            assert_eq!(key, "hoge");
        }
        _ => {
            assert!(false);
        }
    }
}

#[test]
fn test_command_write() {
    match parse("write hoge helloworld") {
        Ok(Command::Write { key, value }) => {
            assert_eq!(key, "hoge");
            assert_eq!(value, "helloworld");
        }
        _ => {
            assert!(false);
        }
    }
}

#[test]
fn test_command_commit() {
    let command = parse("commit").unwrap();
    assert_eq!(command, Command::Commit);
}

#[test]
fn test_command_rollback() {
    let command = parse("rollback").unwrap();
    assert_eq!(command, Command::Rollback);
}

#[test]
fn test_command_empty() {
    let r = parse("");
    assert!(r.is_err());
}

#[test]
fn test_command_read_arity_message() {
    let e = parse("read").unwrap_err();
    assert_eq!(e.message().as_str(), "`read` takes exactly 1 argument");
    let e = parse("read a b").unwrap_err();
    assert_eq!(e.message().as_str(), "`read` takes exactly 1 argument");
}

#[test]
fn test_command_write_arity_message() {
    let e = parse("write a").unwrap_err();
    assert_eq!(e.message().as_str(), "`write` takes exactly 2 arguments");
}

#[test]
fn test_command_commit_arity_message() {
    let e = parse("commit now").unwrap_err();
    assert_eq!(e.message().as_str(), "`commit` takes no arguments");
}

#[test]
fn test_command_rollback_arity_message() {
    let e = parse("rollback x").unwrap_err();
    assert_eq!(e.message().as_str(), "`rollback` takes no arguments");
}

#[test]
fn test_command_unknown_message() {
    let e = parse("frobnicate a b").unwrap_err();
    assert_eq!(e.message().as_str(), "Unknown command: frobnicate");
}

#[test]
fn test_command_empty_is_unknown() {
    let e = parse("").unwrap_err();
    assert_eq!(e.message().as_str(), "Unknown command: ");
}
