use git_cvs_fast_import::ed::{Command, CommandError, EdError, File, LineCommand, Script};

const LAO: &[u8] = b"The Way that can be told of is not the eternal Way;
The name that can be named is not the eternal name.
The Nameless is the origin of Heaven and Earth;
The Named is the mother of all things.
Therefore let there always be non-being,
  so we may see their subtlety,
And let there always be being,
  so we may see their outcome.
The two are the same,
But after they are produced,
  they have different names.
";

const TZU: &[u8] = b"The Nameless is the origin of Heaven and Earth;
The named is the mother of all things.

Therefore let there always be non-being,
  so we may see their subtlety,
And let there always be being,
  so we may see their outcome.
The two are the same,
But after they are produced,
  they have different names.
They both may be called deep and profound.
Deeper and more profound,
The door of all subtleties!
";

const SCRIPT: &[u8] = b"d1 2
d4 1
a4 2
The named is the mother of all things.

a11 3
They both may be called deep and profound.
Deeper and more profound,
The door of all subtleties!
";

fn join(lines: &[Vec<u8>]) -> Vec<u8> {
    lines.join(&b'\n')
}

#[test]
fn test_parse() {
    assert_eq!(
        LineCommand::parse(b"a2 3").unwrap(),
        LineCommand::Add {
            position: 2,
            lines: 3
        }
    );
    assert_eq!(
        LineCommand::parse(b"d20 32121").unwrap(),
        LineCommand::Delete {
            position: 20,
            lines: 32121
        }
    );
    assert!(matches!(LineCommand::parse(b""), Err(CommandError::NoCommand)));
    assert!(matches!(
        LineCommand::parse(b"a2 "),
        Err(CommandError::InvalidCommand)
    ));
    assert!(matches!(
        LineCommand::parse(b"c1 2"),
        Err(CommandError::InvalidCommand)
    ));
    assert!(matches!(
        LineCommand::parse(b"x"),
        Err(CommandError::InvalidCommand)
    ));
}

#[test]
fn test_apply() {
    let commands = Script::parse(SCRIPT).into_command_list().unwrap();
    let out = File::new(LAO).apply(&commands).unwrap();
    assert_eq!(join(&out), TZU.to_vec());
}

#[test]
fn test_apply_in_place() {
    let mut file = File::new(LAO);
    let commands = Script::parse(SCRIPT).into_command_list().unwrap();
    file.apply_in_place(&commands).unwrap();
    assert_eq!(file.into_bytes(), TZU.to_vec());
}

#[test]
fn test_add_first_line() {
    // Prepending one line at a time rebuilds the file from its last line.
    let full: Vec<Vec<u8>> = (1..=15).map(|i| format!("line {}", i).into_bytes()).collect();
    let mut file = File::new(&full[14]);
    for i in (1..15).rev() {
        let script = format!("a0 1\nline {}\n", i).into_bytes();
        let commands = Script::parse(&script).into_command_list().unwrap();
        file.apply_in_place(&commands).unwrap();
        assert_eq!(file.as_bytes(), join(&full[i - 1..]));
    }
    assert_eq!(file.iter().len(), 15);
}

#[test]
fn file_keeps_trailing_newline() {
    assert_eq!(File::new(b"a\nb").iter().len(), 2);
    assert_eq!(File::new(b"a\nb\n").iter().len(), 3);
    assert_eq!(File::new(b"").iter().len(), 1);
    assert_eq!(File::new(b"a\nb\n").as_bytes(), b"a\nb\n".to_vec());
    assert_eq!(File::new(b"a\nb").as_bytes(), b"a\nb".to_vec());
}

#[test]
fn append_on_deleted_line_replaces_it() {
    let file = File::new(b"one\ntwo\nthree");
    let commands = vec![
        Command::Delete {
            position: 2,
            lines: 1,
        },
        Command::Add {
            position: 2,
            content: vec![b"TWO".to_vec(), b"2".to_vec()],
        },
    ];
    assert_eq!(join(&file.apply(&commands).unwrap()), b"one\nTWO\n2\nthree".to_vec());
}

#[test]
fn conflicting_appends_fail() {
    let file = File::new(b"one\ntwo");
    let twice = vec![
        Command::Add {
            position: 1,
            content: vec![b"x".to_vec()],
        },
        Command::Add {
            position: 1,
            content: vec![b"y".to_vec()],
        },
    ];
    assert_eq!(file.apply(&twice), Err(EdError::ConflictingAppend(1)));
    let prepends = vec![
        Command::Add {
            position: 0,
            content: vec![b"x".to_vec()],
        },
        Command::Add {
            position: 0,
            content: vec![b"y".to_vec()],
        },
    ];
    assert_eq!(file.apply(&prepends), Err(EdError::ConflictingAppend(0)));
}

#[test]
fn out_of_range_commands_fail() {
    let mut file = File::new(b"one\ntwo");
    let del = vec![Command::Delete {
        position: 2,
        lines: 2,
    }];
    assert_eq!(
        file.apply_in_place(&del),
        Err(EdError::OutOfRange {
            position: 2,
            lines: 2
        })
    );
    assert_eq!(file.as_bytes(), b"one\ntwo".to_vec());
    let add = vec![Command::Add {
        position: 3,
        content: vec![],
    }];
    assert_eq!(
        file.apply(&add),
        Err(EdError::OutOfRange {
            position: 3,
            lines: 0
        })
    );
}

#[test]
fn script_errors() {
    assert_eq!(
        Script::parse(b"a1 3\nonly one\n").into_command_list(),
        Err(EdError::EndOfFile { have: 1, want: 3 })
    );
    assert_eq!(
        Script::parse(b"d1 1\n\nd2 1\n").into_command_list(),
        Err(EdError::Command {
            error: CommandError::NoCommand,
            line: 2
        })
    );
    assert_eq!(
        Script::parse(b"d1 1\nc2 1\n").into_command_list(),
        Err(EdError::Command {
            error: CommandError::InvalidCommand,
            line: 2
        })
    );
}

#[test]
fn append_delete_append_conflicts() {
    let file = File::new(b"one");
    let script = Script::parse(b"a1 1\nx\nd1 1\na1 1\ny\n").into_command_list().unwrap();
    assert_eq!(file.apply(&script), Err(EdError::ConflictingAppend(1)));
    // A delete keeps what was appended to the deleted line.
    let script = Script::parse(b"a1 1\nx\nd1 1\n").into_command_list().unwrap();
    assert_eq!(join(&file.apply(&script).unwrap()), b"x".to_vec());
}
