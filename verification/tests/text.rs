use resql::error::Error;
use resql::input_buffer::InputBuffer;
use resql::meta_command::MetaCommand;
use resql::row::Row;
use resql::statement::Statement;
use resql::text::{
    ascii_string, chars_of, decimal_string, error_line, indent, parse_number, split_words,
    trimmed,
};

#[test]
fn decimal_of_numbers() {
    assert_eq!(decimal_string(0), "0");
    assert_eq!(decimal_string(7), "7");
    assert_eq!(decimal_string(10), "10");
    assert_eq!(decimal_string(292), "292");
    assert_eq!(decimal_string(1_000_000), "1000000");
    assert_eq!(decimal_string(usize::MAX), usize::MAX.to_string());
}

#[test]
fn ascii_bytes_become_text() {
    assert_eq!(ascii_string(b"abc 123".to_vec()), "abc 123");
    assert_eq!(ascii_string(Vec::new()), "");
}

#[test]
fn chars_are_collected_in_order() {
    assert_eq!(chars_of("añ√x"), vec!['a', 'ñ', '√', 'x']);
    assert!(chars_of("").is_empty());
}

#[test]
fn indentation_is_two_spaces_a_level() {
    assert_eq!(indent(0), "");
    assert_eq!(indent(1), "  ");
    assert_eq!(indent(3), "      ");
}

#[test]
fn words_are_split_at_ascii_whitespace() {
    assert_eq!(split_words("insert 1 a b"), vec!["insert", "1", "a", "b"]);
    assert_eq!(split_words("  a\t\tb\r\nc\x0Cd  "), vec!["a", "b", "c", "d"]);
    assert!(split_words("").is_empty());
    assert!(split_words(" \n\t ").is_empty());
    // a no-break space and a vertical tab are no ASCII whitespace
    assert_eq!(split_words("a\u{a0}b c\x0Bd"), vec!["a\u{a0}b", "c\x0Bd"]);
    assert_eq!(split_words("ünï çødé"), vec!["ünï", "çødé"]);
}

#[test]
fn numbers_are_parsed_as_u32() {
    assert_eq!(parse_number("0"), Some(0));
    assert_eq!(parse_number("1"), Some(1));
    assert_eq!(parse_number("+15"), Some(15));
    assert_eq!(parse_number("007"), Some(7));
    assert_eq!(parse_number("4294967295"), Some(u32::MAX));
    assert_eq!(parse_number("00000000004294967295"), Some(u32::MAX));
    assert_eq!(parse_number("4294967296"), None);
    assert_eq!(parse_number("99999999999999999999999999"), None);
    assert_eq!(parse_number("-32"), None);
    assert_eq!(parse_number("-0"), None);
    assert_eq!(parse_number(""), None);
    assert_eq!(parse_number("+"), None);
    assert_eq!(parse_number("++1"), None);
    assert_eq!(parse_number("1+"), None);
    assert_eq!(parse_number("12a"), None);
    assert_eq!(parse_number("1_000"), None);
    assert_eq!(parse_number(" 1"), None);
    assert_eq!(parse_number("١٢"), None);
    for text in ["0", "+15", "007", "4294967296", "-32", "", "+", "12a", "4294967295"] {
        assert_eq!(parse_number(text), text.parse::<u32>().ok(), "{text:?}");
    }
}

#[test]
fn nul_characters_are_trimmed_at_both_ends() {
    assert_eq!(trimmed("user1\0\0\0"), "user1");
    assert_eq!(trimmed("\0\0user1"), "user1");
    assert_eq!(trimmed("\0a\0b\0"), "a\0b");
    assert_eq!(trimmed("\0\0\0"), "");
    assert_eq!(trimmed(""), "");
    assert_eq!(trimmed("plain"), "plain");
    assert_eq!(trimmed("é\0"), "é");
}

#[test]
fn error_lines_start_with_the_marker() {
    assert_eq!(error_line("syntax error"), "[ERROR]syntax error");
}

#[test]
fn errors_have_messages() {
    assert_eq!(Error::CorruptFile.message(), "corrupted file");
    assert_eq!(Error::PageOutOfBounds(101).message(), "page number '101' is out of bound");
    assert_eq!(
        Error::ChildOutOfBounds { child_num: 4, num_keys: 2 }.message(),
        "trying to access child '4' with only '2' keys."
    );
    assert_eq!(Error::DuplicateKey(2).message(), "duplicate key '2'");
    assert_eq!(Error::InternalSplit.message(), "need to implement splitting internal node");
    assert_eq!(Error::Decode.message(), "stored text is not valid utf-8");
    assert!(!Error::DuplicateKey(2).fatal());
    assert!(Error::InternalSplit.fatal());
    assert!(Error::CorruptFile.fatal());
}

#[test]
fn rows_are_shown_without_padding() {
    let row = Row { id: 12, username: "user12\0\0".into(), email: "p@example.com\0".into() };
    assert_eq!(row.to_line(), "12: user12 p@example.com");
    let row = Row::deserialize(
        &Row { id: 3, username: "u".into(), email: "e".into() }.serialize(),
    )
    .unwrap();
    assert_eq!(row.to_line(), "3: u e");
}

#[test]
fn statements_are_prepared() {
    match Statement::prepare("insert 1 user1 person1@example.com") {
        Statement::Insert(row) => {
            assert_eq!(
                row,
                Row { id: 1, username: "user1".into(), email: "person1@example.com".into() }
            );
        }
        other => panic!("unexpected {other:?}"),
    }
    assert!(matches!(Statement::prepare("select"), Statement::Select));
    assert!(matches!(Statement::prepare("  select  extra"), Statement::Select));
    match Statement::prepare("insert 1 a b c d") {
        Statement::Insert(row) => assert_eq!((row.id, row.username.as_str()), (1, "a")),
        other => panic!("unexpected {other:?}"),
    }
    let message = |input: &str| match Statement::prepare(input) {
        Statement::Error(message) => message,
        other => panic!("unexpected {other:?}"),
    };
    assert_eq!(message("insert 1 user1"), "syntax error");
    assert_eq!(message("insert"), "syntax error");
    assert_eq!(message("insert -32 user1 user1@example.com"), "can't parse '-32' to u32");
    assert_eq!(
        message(&format!("insert 1 {} abc", "n".repeat(32))),
        format!("'{}' is too long for username", "n".repeat(32))
    );
    assert_eq!(
        message(&format!("insert 1 abc {}", "e".repeat(256))),
        format!("'{}' is too long for email", "e".repeat(256))
    );
    // the limits are in bytes: sixteen two-byte characters are too long
    assert_eq!(
        message(&format!("insert 1 {} abc", "é".repeat(16))),
        format!("'{}' is too long for username", "é".repeat(16))
    );
    assert_eq!(message("delete 1"), "unknown command: 'delete'");
    assert_eq!(message("INSERT 1 a b"), "unknown command: 'INSERT'");
    assert_eq!(message(""), "unknown command: ''");
}

#[test]
fn meta_commands_are_parsed() {
    assert!(matches!(MetaCommand::parse(".exit"), MetaCommand::Exit));
    assert!(matches!(MetaCommand::parse(".btree"), MetaCommand::BTree));
    assert!(matches!(MetaCommand::parse(".constants"), MetaCommand::Constants));
    assert!(matches!(MetaCommand::parse(".exit please"), MetaCommand::Exit));
    match MetaCommand::parse(".help") {
        MetaCommand::Error(message) => assert_eq!(message, "unknown metacommand: '.help'"),
        other => panic!("unexpected {other:?}"),
    }
    match MetaCommand::parse(".EXIT") {
        MetaCommand::Error(message) => assert_eq!(message, "unknown metacommand: '.EXIT'"),
        other => panic!("unexpected {other:?}"),
    }
}

#[test]
fn input_buffer_trims_the_end_of_the_line() {
    let buffer = InputBuffer::new();
    assert_eq!(buffer.get_input(), None);
    let mut buffer = InputBuffer::new();
    buffer.push_line("select  \t\r\n");
    assert_eq!(buffer.get_input(), Some("select"));
    let mut buffer = InputBuffer::new();
    buffer.push_line("  insert 1 a b\u{a0}\n");
    assert_eq!(buffer.get_input(), Some("  insert 1 a b"));
    let mut buffer = InputBuffer::new();
    buffer.push_line("\n");
    assert_eq!(buffer.get_input(), Some(""));
    let mut buffer = InputBuffer::new();
    buffer.push_line("a");
    buffer.push_line("b \n");
    assert_eq!(buffer.get_input(), Some("ab"));
}
