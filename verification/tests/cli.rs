use resql::input_buffer::InputBuffer;
use resql::meta_command::MetaCommand;
use resql::statement::Statement;
use resql::table::Table;

/// Runs a session over the bytes of a database file: each command is a line
/// of input. Gives the lines on standard output, the lines on standard
/// error, and the bytes of the file as the session leaves them.
fn run(commands: Vec<String>, file: &[u8]) -> (Vec<String>, Vec<String>, Vec<u8>) {
    let mut table = Table::open(file.to_vec()).expect("the file holds a table");
    let mut out = Vec::new();
    let mut err = Vec::new();
    for command in commands {
        let mut input_buffer = InputBuffer::new();
        input_buffer.push_line(&format!("{command}\n"));
        let Some(input) = input_buffer.get_input() else {
            continue;
        };
        if input.is_empty() {
            continue;
        }
        let reply = if input.starts_with('.') {
            if matches!(MetaCommand::parse(input), MetaCommand::BTree) {
                assert!(table.check());
            }
            MetaCommand::process(input, &mut table)
        } else {
            let statement = Statement::prepare(input);
            if !matches!(statement, Statement::Error(_)) {
                assert!(table.check());
            }
            statement.execute(&mut table)
        };
        out.extend(reply.out);
        err.extend(reply.err);
        if let Some(code) = reply.exit {
            if code == 0 {
                return (out, err, table.pager.file);
            }
            return (out, err, file.to_vec());
        }
    }
    (out, err, file.to_vec())
}

#[test]
fn test_insert_a_row() {
    let (out, _, _) = run(
        vec![
            "insert 1 user1 person1@example.com".into(),
            "select".into(),
            ".exit".into(),
        ],
        &[],
    );

    let mut contain = false;
    for s in out.iter() {
        if s.contains("1: user1 person1@example.com") {
            contain = true;
            break;
        }
    }
    assert!(contain);
}

#[test]
fn test_parse_error() {
    let (_, err, _) = run(
        vec!["insert -32 user1 user1@example.com".into(), ".exit".into()],
        &[],
    );
    assert!(err[err.len() - 1].contains("[ERROR]can't parse '-32' to u32"));
}

#[test]
fn test_syntax_error() {
    let (_, err, _) = run(vec!["insert 1 user1".into(), ".exit".into()], &[]);
    assert!(err[err.len() - 1].contains("[ERROR]syntax error"));
}

#[test]
fn test_too_long() {
    let (_, err, _) = run(
        vec![
            "insert 1 nnnnnnnnnnnnnnnnnnnnnnnnnnnnnnnn abc".into(),
            ".exit".into(),
        ],
        &[],
    );
    assert!(err[err.len() - 1]
        .contains("[ERROR]'nnnnnnnnnnnnnnnnnnnnnnnnnnnnnnnn' is too long for username"));
}

#[test]
fn test_keep_data() {
    let (_, _, file) = run(
        vec!["insert 1 user1 person1@example.com".into(), ".exit".into()],
        &[],
    );

    let (out, _, _) = run(vec!["select".into(), ".exit".into()], &file);

    let mut contain = false;
    for s in out.iter() {
        if s.contains("1: user1 person1@example.com") {
            contain = true;
            break;
        }
    }
    assert!(contain);
}

#[test]
fn test_constants() {
    let (out, _, _) = run(vec![".constants".into(), ".exit".into()], &[]);

    let mut contain = false;
    for s in out.iter() {
        if s.contains("COMMON_HEADER_SIZE") {
            contain = true;
            break;
        }
    }
    assert!(contain);
}

#[test]
fn test_ordering() {
    let (out, _, _) = run(
        vec![
            "insert 1 user1 person1@example.com".into(),
            "insert 2 user2 person2@example.com".into(),
            "insert 4 user4 person4@example.com".into(),
            "insert 5 user5 person5@example.com".into(),
            "insert 3 user3 person3@example.com".into(),
            "select".into(),
            ".exit".into(),
        ],
        &[],
    );

    for (num, line) in out[1..5].iter().enumerate() {
        let index = num + 2;
        assert_eq!(
            line,
            &format!("{index}: user{index} person{index}@example.com")
        );
    }
    assert_eq!(out[0], "1: user1 person1@example.com");
}

#[test]
fn test_duplicate() {
    let (_, err, _) = run(
        vec![
            "insert 1 user1 person1@example.com".into(),
            "insert 2 user2 person2@example.com".into(),
            "insert 4 user4 person4@example.com".into(),
            "insert 5 user5 person5@example.com".into(),
            "insert 3 user3 person3@example.com".into(),
            "insert 2 user2 person2@example.com".into(),
            ".exit".into(),
        ],
        &[],
    );

    assert!(err[err.len() - 1].contains("duplicate key '2'"));
    assert_eq!(err, vec!["[ERROR]duplicate key '2'".to_string()]);
}

#[test]
fn test_tree() {
    let mut cmds = Vec::new();
    for i in 1..15 {
        cmds.push(format!("insert {i} user{i} person{i}@example.com"));
    }
    cmds.push(".btree".into());
    cmds.push(".exit".into());
    let (out, _, _) = run(cmds, &[]);
    let expected_out = [
        "- internal (size 1)",
        "  - leaf (size 7)",
        "    - key 1",
        "    - key 2",
        "    - key 3",
        "    - key 4",
        "    - key 5",
        "    - key 6",
        "    - key 7",
        "  - key 7",
        "  - leaf (size 7)",
        "    - key 8",
        "    - key 9",
        "    - key 10",
        "    - key 11",
        "    - key 12",
        "    - key 13",
        "    - key 14",
        "exitting...",
    ];
    assert_eq!(out.len(), expected_out.len());
    for (i, s) in out.iter().enumerate() {
        let str = s.trim_start_matches(">> ").trim_end();
        assert_eq!(str, expected_out[i]);
        assert_eq!(s, expected_out[i]);
    }
}

#[test]
fn test_search_internal_node() {
    let mut cmds = Vec::new();
    for i in 1..16 {
        cmds.push(format!("insert {i} user{i} person{i}@example.com"));
    }
    cmds.push(".exit".into());
    let (_, err, _) = run(cmds, &[]);
    for s in err.iter() {
        assert!(!s.contains("need to implement"));
    }
    assert!(err.is_empty());
}

#[test]
fn test_select() {
    let mut cmds = Vec::new();
    for i in 1..16 {
        cmds.push(format!("insert {i} user{i} person{i}@example.com"));
    }
    cmds.push("select".into());
    cmds.push(".exit".into());
    let (out, _, _) = run(cmds, &[]);
    let expected_out = [
        "1: user1 person1@example.com",
        "2: user2 person2@example.com",
        "3: user3 person3@example.com",
        "4: user4 person4@example.com",
        "5: user5 person5@example.com",
        "6: user6 person6@example.com",
        "7: user7 person7@example.com",
        "8: user8 person8@example.com",
        "9: user9 person9@example.com",
        "10: user10 person10@example.com",
        "11: user11 person11@example.com",
        "12: user12 person12@example.com",
        "13: user13 person13@example.com",
        "14: user14 person14@example.com",
        "15: user15 person15@example.com",
        "exitting...",
    ];
    assert_eq!(out.len(), expected_out.len());
    for (i, s) in out.iter().enumerate() {
        let str = s.trim_start_matches(">> ").trim_end();
        assert_eq!(str, expected_out[i]);
    }
}

#[test]
fn internal_split_is_reported_and_ends_the_session() {
    let mut cmds = Vec::new();
    for i in 1..=35 {
        cmds.push(format!("insert {i} user{i} person{i}@example.com"));
    }
    cmds.push("select".into());
    let (out, err, file) = run(cmds, &[]);
    assert!(out.is_empty());
    assert_eq!(err, vec!["[ERROR]need to implement splitting internal node".to_string()]);
    assert!(file.is_empty());
}

#[test]
fn unknown_commands_are_reported() {
    let (out, err, _) = run(
        vec!["update 1".into(), ".tables".into(), "   ".into(), ".exit now".into()],
        &[],
    );
    assert_eq!(
        err,
        vec![
            "[ERROR]unknown command: 'update'".to_string(),
            "[ERROR]unknown metacommand: '.tables'".to_string(),
        ]
    );
    assert_eq!(out, vec!["exitting...".to_string()]);
}

#[test]
fn constants_are_listed() {
    let (out, _, _) = run(vec![".constants".into()], &[]);
    assert_eq!(
        out,
        vec![
            "Constants:",
            "",
            "ROW_SIZE: 292",
            "COMMON_HEADER_SIZE: 10",
            "LEAF_HEADER_SIZE: 26",
            "LEAF_CELL_SIZE: 300",
            "LEAF_MAX_CELLS: 13",
        ]
    );
}

#[test]
fn email_too_long_is_reported() {
    let email = "e".repeat(256);
    let (_, err, _) = run(vec![format!("insert 1 user1 {email}")], &[]);
    assert_eq!(err, vec![format!("[ERROR]'{email}' is too long for email")]);
    let email = "e".repeat(255);
    let (_, err, _) = run(vec![format!("insert 1 {} {email}", "n".repeat(31))], &[]);
    assert!(err.is_empty());
}

#[test]
fn a_file_without_a_tree_can_be_opened_and_closed() {
    let file = vec![0u8; 2 * 4096];
    let (out, err, after) = run(
        vec![".constants".into(), "insert 1 user1".into(), ".exit".into()],
        &file,
    );
    assert_eq!(out.len(), 8);
    assert_eq!(out[7], "exitting...");
    assert_eq!(err, vec!["[ERROR]syntax error".to_string()]);
    assert_eq!(after, file);
}
