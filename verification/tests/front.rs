use pagestore::commands::{str_eq, Command};
use pagestore::datatype::{DataType, ScalarValue, Schema};
use pagestore::errors::Error;
use pagestore::repl::{prompt, welcome, Repl};
use pagestore::statement::{prepare_statement, value_tokens, InsertStatement, Statement};

fn schema_ab() -> Schema {
    Schema {
        feilds: vec![
            ("a".to_string(), DataType::Number),
            ("b".to_string(), DataType::String(10)),
        ],
    }
}

fn text(s: &str) -> ScalarValue {
    ScalarValue::String(s.to_string())
}

#[test]
fn exit_is_the_one_meta_command() {
    assert_eq!(Command::parse(".exit"), Ok(Command::Exit));
    assert_eq!(".exit".parse::<Command>(), Ok(Command::Exit));
    for line in ["", ".", "exit", ".exi", ".exit ", " .exit", ".Exit", ".exit\n", ".quit"] {
        assert_eq!(Command::parse(line), Err(Error::UnrecognizedCommand));
    }
    assert!(str_eq("", ""));
    assert!(str_eq("gr\u{fc}n", "gr\u{fc}n"));
    assert!(!str_eq("a", "b"));
    assert!(!str_eq("a", "ab"));
}

#[test]
fn values_are_numbers_and_quoted_strings() {
    assert_eq!(value_tokens(""), Ok(vec![]));
    assert_eq!(
        value_tokens("1 \"hi\""),
        Ok(vec![ScalarValue::Number(1), text("hi")])
    );
    assert_eq!(
        value_tokens("007  \"a b\"\t42 \n"),
        Ok(vec![ScalarValue::Number(7), text("a b"), ScalarValue::Number(42)])
    );
    assert_eq!(
        value_tokens("1\"x\"2"),
        Ok(vec![ScalarValue::Number(1), text("x"), ScalarValue::Number(2)])
    );
    assert_eq!(value_tokens("\"\""), Ok(vec![text("")]));
    assert_eq!(
        value_tokens("9223372036854775807"),
        Ok(vec![ScalarValue::Number(i64::MAX)])
    );
    assert_eq!(
        value_tokens("\"gr\u{fc}\u{df}e \u{4e16}\""),
        Ok(vec![text("gr\u{fc}\u{df}e \u{4e16}")])
    );
}

#[test]
fn a_backslash_takes_the_next_character_along() {
    assert_eq!(value_tokens(r#""a\"b""#), Ok(vec![text("a\"b")]));
    assert_eq!(value_tokens(r#""a\\""#), Ok(vec![text("a\\")]));
    assert_eq!(value_tokens(r#""\\\"""#), Ok(vec![text("\\\"")]));
    // Before another character the backslash stays.
    assert_eq!(value_tokens(r#""a\nb""#), Ok(vec![text("a\\nb")]));
    assert_eq!(value_tokens(r#""a\" 1"#), Err(Error::ParseError));
    assert_eq!(value_tokens(r#""a\"#), Err(Error::ParseError));
}

#[test]
fn what_spells_no_values_is_a_parse_error() {
    for line in [
        " 1",
        "-1",
        "abc",
        "1 abc",
        "\"open",
        "1 \"open",
        "9223372036854775808",
        "99999999999999999999999",
        "1,2",
        "1 \u{a0}2",
    ] {
        assert_eq!(value_tokens(line), Err(Error::ParseError), "{:?}", line);
    }
}

#[test]
fn lines_become_statements() {
    let schema = schema_ab();
    assert_eq!(
        prepare_statement("insert 1 \"hi\"", &schema),
        Ok(Statement::Insert(InsertStatement {
            values: vec![ScalarValue::Number(1), text("hi")]
        }))
    );
    assert_eq!(prepare_statement("read 0", &schema), Ok(Statement::Read(0)));
    assert_eq!(prepare_statement("read 17", &schema), Ok(Statement::Read(17)));
    assert_eq!(prepare_statement("read +5", &schema), Ok(Statement::Read(5)));
    assert_eq!(
        prepare_statement("read 18446744073709551615", &schema),
        Ok(Statement::Read(usize::MAX))
    );
    // The length of a string is left to the insert.
    assert_eq!(
        prepare_statement("insert 1 \"much too long for it\"", &schema),
        Ok(Statement::Insert(InsertStatement {
            values: vec![ScalarValue::Number(1), text("much too long for it")]
        }))
    );
    assert_eq!(
        Statement::insert_statement("2 \"b\" ", &schema),
        Ok(Statement::Insert(InsertStatement {
            values: vec![ScalarValue::Number(2), text("b")]
        }))
    );
}

#[test]
fn lines_that_are_no_statements_are_refused() {
    let schema = schema_ab();
    for line in ["", "insert", "read", "select", ".exit"] {
        assert_eq!(prepare_statement(line, &schema), Err(Error::ParseError), "{:?}", line);
    }
    for line in ["select 1", "Insert 1 \"a\"", " insert 1 \"a\"", "reads 1", " read 1"] {
        assert_eq!(
            prepare_statement(line, &schema),
            Err(Error::UnrecognizedCommand),
            "{:?}",
            line
        );
    }
    for line in [
        "insert 1",
        "insert \"a\" 1",
        "insert 1 2",
        "insert 1 \"a\" 3",
        "insert ",
        "insert  1 \"a\"",
        "insert 1 \"a",
        "read ",
        "read x",
        "read 1 ",
        "read  1",
        "read -1",
        "read +",
        "read 1.5",
        "read 18446744073709551616",
    ] {
        assert_eq!(prepare_statement(line, &schema), Err(Error::ParseError), "{:?}", line);
    }
    assert_eq!(
        Statement::insert_statement("\"a\"", &schema),
        Err(Error::ParseError)
    );
}

#[test]
fn the_front_end_greets_and_keeps_its_lines() {
    assert_eq!(welcome(), "Welcome to Sqlite");
    assert_eq!(prompt(), "sqlite> ");
    let mut repl = Repl::new();
    assert!(repl.history.is_empty());
    assert_eq!(repl.accept("read 0\n", 7), Some("read 0".to_string()));
    assert_eq!(repl.accept("last line", 9), Some("last line".to_string()));
    assert_eq!(repl.accept("\n", 1), Some("".to_string()));
    assert_eq!(repl.accept("two\n\n", 5), Some("two\n".to_string()));
    assert_eq!(repl.accept("gr\u{fc}n\n", 6), Some("gr\u{fc}n".to_string()));
    assert_eq!(repl.history, vec!["read 0", "last line", "", "two\n", "gr\u{fc}n"]);
    // A read of nothing is the end of the input.
    assert_eq!(repl.accept("", 0), None);
    assert_eq!(repl.history.len(), 5);
}
