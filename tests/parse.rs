use shell::error::Error;
use shell::parser::{split_on, Builtin, Cmd, Compound, Expression, Invoke, Op};
use shell::tokenizer::LineIter;

fn words_of(mut args: LineIter) -> Vec<String> {
    let mut out = Vec::new();
    while let Some(w) = args.next() {
        out.push(w);
    }
    out
}

#[test]
fn test_empty_line() {
    match Cmd::try_from("") {
        Err(Error::EmptyLine) => assert!(true),
        _ => assert!(false),
    }
}

#[test]
fn test_single_binary() {
    let cmd = Cmd::try_from("echo").unwrap();

    if let Cmd::Invoke(Invoke { binary, mut args }) = cmd {
        assert_eq!(binary, "echo");
        assert_eq!(args.next(), None);
    } else {
        assert!(false);
    }
}

#[test]
fn test_binary_with_arguments() {
    let cmd = Cmd::try_from("echo 1 2 3").unwrap();

    if let Cmd::Invoke(Invoke { binary, args }) = cmd {
        assert_eq!(binary, "echo");
        assert_eq!(words_of(args), vec!["1", "2", "3"]);
    } else {
        assert!(false);
    }
}

#[test]
fn test_exit_builtin() {
    let cmd = Cmd::try_from("exit").unwrap();

    if let Cmd::Builtin(Builtin::Exit(status)) = cmd {
        assert_eq!(status, 0);
    } else {
        assert!(false);
    }
}

#[test]
fn test_cd_builtin() {
    let cmd = Cmd::try_from("cd /home").unwrap();

    if let Cmd::Builtin(Builtin::Cd(path)) = cmd {
        assert_eq!(path.as_str(), "/home");
    } else {
        assert!(false);
    }
}

fn check_two_commands(line: &str, expected: Op) {
    match Expression::try_from(line).unwrap() {
        Expression::Compound(compound) => match *compound {
            Compound {
                op,
                left:
                    Expression::Cmd(Cmd::Invoke(Invoke {
                        binary: binary_left,
                        args: mut args_left,
                    })),
                right:
                    Expression::Cmd(Cmd::Invoke(Invoke {
                        binary: binary_right,
                        args: mut args_right,
                    })),
            } => {
                assert_eq!(op, expected);
                assert_eq!(binary_left, "echo");
                assert_eq!(args_left.next().as_deref(), Some("1"));
                assert_eq!(args_left.next().as_deref(), Some("2"));
                assert_eq!(args_left.next().as_deref(), Some("3"));
                assert_eq!(args_left.next(), None);

                assert_eq!(binary_right, "ls");
                assert_eq!(args_right.next(), None);
            }
            _ => assert!(false),
        },
        _ => assert!(false),
    }
}

#[test]
fn test_semicolon_expression() {
    check_two_commands("echo 1 2 3; ls", Op::Semicolon);
}

#[test]
fn test_and_expression() {
    check_two_commands("echo 1 2 3 && ls", Op::And);
}

#[test]
fn cmd_test_empty_line() {
    match Cmd::try_from("") {
        Err(Error::EmptyLine) => assert!(true),
        _ => assert!(false),
    }
}

#[test]
fn cmd_test_single_binary() {
    let cmd = Cmd::try_from("echo").unwrap();
    match cmd {
        Cmd::Invoke(mut invoke) => {
            assert_eq!(invoke.binary, "echo");
            assert_eq!(invoke.args.next(), None);
        }
        _ => assert!(false),
    }
}

#[test]
fn cmd_test_binary_with_arguments() {
    let cmd = Cmd::try_from("echo 1 2 3").unwrap();
    match cmd {
        Cmd::Invoke(invoke) => {
            assert_eq!(invoke.binary, "echo");
            assert_eq!(words_of(invoke.args), vec!["1", "2", "3"]);
        }
        _ => assert!(false),
    }
}

#[test]
fn cmd_test_semicolon_expression() {
    check_two_commands("echo 1 2 3; ls", Op::Semicolon);
}

#[test]
fn test_double_ampersand_expression() {
    check_two_commands("echo 1 2 3 && ls", Op::And);
}

fn program(e: &Expression) -> Option<(String, Vec<String>)> {
    match e {
        Expression::Cmd(Cmd::Invoke(invoke)) => {
            Some((invoke.binary.clone(), words_of(invoke.args.duplicate())))
        }
        _ => None,
    }
}

#[test]
fn semicolon_joins_two_leaves() {
    match Expression::try_from("a;b").unwrap() {
        Expression::Compound(c) => {
            assert_eq!(c.op, Op::Semicolon);
            assert_eq!(program(&c.left), Some(("a".to_string(), vec![])));
            assert_eq!(program(&c.right), Some(("b".to_string(), vec![])));
        }
        _ => panic!("expected a compound"),
    }
}

#[test]
fn and_joins_two_leaves() {
    match Expression::try_from("a&&b").unwrap() {
        Expression::Compound(c) => {
            assert_eq!(c.op, Op::And);
            assert_eq!(program(&c.left), Some(("a".to_string(), vec![])));
            assert_eq!(program(&c.right), Some(("b".to_string(), vec![])));
        }
        _ => panic!("expected a compound"),
    }
}

#[test]
fn empty_and_blank_lines_are_rejected() {
    assert!(matches!(Expression::try_from(""), Err(Error::EmptyLine)));
    assert!(matches!(Expression::try_from("   "), Err(Error::EmptyLine)));
    assert!(matches!(Expression::try_from(" \t \n"), Err(Error::EmptyLine)));
}

#[test]
fn cd_needs_a_directory() {
    assert!(matches!(Expression::try_from("cd"), Err(Error::NoDir)));
    match Expression::try_from("cd /tmp").unwrap() {
        Expression::Cmd(Cmd::Builtin(Builtin::Cd(path))) => assert_eq!(path, "/tmp"),
        _ => panic!("expected cd"),
    }
}

#[test]
fn exit_is_builtin_with_status_zero() {
    match Expression::try_from("exit").unwrap() {
        Expression::Cmd(Cmd::Builtin(Builtin::Exit(code))) => assert_eq!(code, 0),
        _ => panic!("expected exit"),
    }
}

#[test]
fn empty_fragments_are_rejected() {
    assert!(matches!(Expression::try_from("ls;"), Err(Error::EmptyLine)));
    assert!(matches!(Expression::try_from(";ls"), Err(Error::EmptyLine)));
    assert!(matches!(Expression::try_from("ls;;ls"), Err(Error::EmptyLine)));
    assert!(matches!(Expression::try_from("ls &&"), Err(Error::EmptyLine)));
}

#[test]
fn first_failing_fragment_decides_the_error() {
    assert!(matches!(Expression::try_from("cd; ;"), Err(Error::NoDir)));
    assert!(matches!(Expression::try_from(" ; cd"), Err(Error::EmptyLine)));
}

#[test]
fn and_binds_tighter_and_groups_right() {
    // a && b ; c && d  ==  (a && b) ; (c && d)
    match Expression::try_from("a && b ; c && d").unwrap() {
        Expression::Compound(top) => {
            assert_eq!(top.op, Op::Semicolon);
            match (&top.left, &top.right) {
                (Expression::Compound(l), Expression::Compound(r)) => {
                    assert_eq!(l.op, Op::And);
                    assert_eq!(r.op, Op::And);
                    assert_eq!(program(&l.left).unwrap().0, "a");
                    assert_eq!(program(&l.right).unwrap().0, "b");
                    assert_eq!(program(&r.left).unwrap().0, "c");
                    assert_eq!(program(&r.right).unwrap().0, "d");
                }
                _ => panic!("expected two compounds"),
            }
        }
        _ => panic!("expected a compound"),
    }
    // a ; b ; c  ==  a ; (b ; c)
    match Expression::try_from("a;b;c").unwrap() {
        Expression::Compound(top) => {
            assert_eq!(program(&top.left).unwrap().0, "a");
            match &top.right {
                Expression::Compound(r) => {
                    assert_eq!(r.op, Op::Semicolon);
                    assert_eq!(program(&r.left).unwrap().0, "b");
                    assert_eq!(program(&r.right).unwrap().0, "c");
                }
                _ => panic!("expected a compound"),
            }
        }
        _ => panic!("expected a compound"),
    }
}

#[test]
fn parsing_twice_gives_the_same_tree() {
    let line = "cd /tmp && ls -l ; echo a b&&true";
    let first = format!("{:?}", Expression::try_from(line));
    let second = format!("{:?}", Expression::try_from(line));
    assert_eq!(first, second);
}

#[test]
fn words_come_out_in_order() {
    let args = LineIter::from("  ls\t-l \u{3000}/tmp  ");
    assert_eq!(words_of(args), vec!["ls", "-l", "/tmp"]);
    let mut none = LineIter::from(" \u{a0} ");
    assert_eq!(none.next(), None);
    assert_eq!(none.next(), None);
}

#[test]
fn split_cuts_like_str_split() {
    assert_eq!(split_on("a&&&b", "&&"), vec!["a", "&b"]);
    assert_eq!(split_on("a;;b;", ";"), vec!["a", "", "b", ""]);
    assert_eq!(split_on("", ";"), vec![""]);
    assert_eq!(split_on("héllo wörld", "ö"), vec!["héllo w", "rld"]);
}
