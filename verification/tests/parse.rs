use minishell::cmd::{Builtin, Cmd, Compound, Expression, Invoke, LineIter, Op, ParseError};
use minishell::text::{next_token, same_text, split_str};

/// The rest of the tokens, in order.
fn drain(mut args: LineIter) -> Vec<String> {
    let mut out = Vec::new();
    while let Some(arg) = args.next() {
        out.push(arg.to_string());
    }
    out
}

/// A tree written out with every compound in brackets.
fn shape(expr: Expression) -> String {
    match expr {
        Expression::Cmd(Cmd::Builtin(Builtin::Exit(code))) => format!("exit#{}", code),
        Expression::Cmd(Cmd::Invoke(Invoke { binary, args })) => {
            let mut words = vec![binary.to_string()];
            words.extend(drain(args));
            words.join(" ")
        }
        Expression::Compound(compound) => {
            let Compound { op, left, right } = *compound;
            let sign = match op {
                Op::Semicolon => ";",
                Op::And => "&&",
            };
            format!("({} {} {})", shape(left), sign, shape(right))
        }
    }
}

fn parsed(line: &str) -> String {
    shape(Expression::try_from(line).unwrap())
}

#[test]
fn test_empty_line() {
    assert_eq!(Cmd::try_from("").unwrap_err(), ParseError::EmptyLine);
}

#[test]
fn test_single_binary() {
    let cmd = Cmd::try_from("echo").unwrap();

    if let Cmd::Invoke(Invoke { binary, mut args }) = cmd {
        assert_eq!(binary, "echo");
        assert_eq!(args.next(), None);
    } else {
        assert!(false);
    }
}

#[test]
fn test_binary_with_arguments() {
    let cmd = Cmd::try_from("echo 1 2 3").unwrap();

    if let Cmd::Invoke(Invoke { binary, mut args }) = cmd {
        assert_eq!(binary, "echo");
        assert_eq!(args.next(), Some("1"));
        assert_eq!(args.next(), Some("2"));
        assert_eq!(args.next(), Some("3"));
        assert_eq!(args.next(), None);
    } else {
        assert!(false);
    }
}

#[test]
fn test_exit_builtin() {
    let cmd = Cmd::try_from("exit").unwrap();

    if let Cmd::Builtin(Builtin::Exit(status)) = cmd {
        assert_eq!(status, 0);
    } else {
        assert!(false);
    }
}

#[test]
fn test_semicolon_expression() {
    match Expression::try_from("echo 1 2 3; ls").unwrap() {
        Expression::Compound(compound) => match *compound {
            Compound {
                op: Op::Semicolon,
                left:
                    Expression::Cmd(Cmd::Invoke(Invoke {
                        binary: binary_left,
                        args: mut args_left,
                    })),
                right:
                    Expression::Cmd(Cmd::Invoke(Invoke {
                        binary: binary_right,
                        args: mut args_right,
                    })),
            } => {
                assert_eq!(binary_left, "echo");
                assert_eq!(args_left.next(), Some("1"));
                assert_eq!(args_left.next(), Some("2"));
                assert_eq!(args_left.next(), Some("3"));
                assert_eq!(args_left.next(), None);

                assert_eq!(binary_right, "ls");
                assert_eq!(args_right.next(), None);
            }

            _ => assert!(false),
        },

        _ => assert!(false),
    }
}

#[test]
fn test_and_expression() {
    match Expression::try_from("echo 1 2 3 && ls").unwrap() {
        Expression::Compound(compound) => match *compound {
            Compound {
                op: Op::And,
                left:
                    Expression::Cmd(Cmd::Invoke(Invoke {
                        binary: binary_left,
                        args: mut args_left,
                    })),
                right:
                    Expression::Cmd(Cmd::Invoke(Invoke {
                        binary: binary_right,
                        args: mut args_right,
                    })),
            } => {
                assert_eq!(binary_left, "echo");
                assert_eq!(args_left.next(), Some("1"));
                assert_eq!(args_left.next(), Some("2"));
                assert_eq!(args_left.next(), Some("3"));
                assert_eq!(args_left.next(), None);

                assert_eq!(binary_right, "ls");
                assert_eq!(args_right.next(), None);
            }

            _ => assert!(false),
        },

        _ => assert!(false),
    }
}

#[test]
fn test_single_command_line_is_a_leaf() {
    assert_eq!(parsed("echo"), "echo");
    assert_eq!(parsed("echo 1 2 3"), "echo 1 2 3");
    assert_eq!(parsed("exit"), "exit#0");
}

#[test]
fn test_blank_command_is_empty_line() {
    for text in ["", " ", "   ", "\t", "\n", " \t\r\n ", "\u{2003}\u{00a0}"] {
        assert_eq!(Cmd::try_from(text).unwrap_err(), ParseError::EmptyLine);
    }
}

#[test]
fn test_blank_line_is_empty_line() {
    for line in ["", " ", "   ", "\t", "\n", " \t\r\n ", "\u{3000}"] {
        assert_eq!(Expression::try_from(line).unwrap_err(), ParseError::EmptyLine);
    }
}

#[test]
fn test_separators_alone_are_empty_line() {
    for line in [";", "&&", " ; ", " && ", ";;", "&& ;", "&"] {
        let r = Expression::try_from(line);
        if line == "&" {
            assert_eq!(shape(r.unwrap()), "&");
        } else {
            assert_eq!(r.unwrap_err(), ParseError::EmptyLine);
        }
    }
}

#[test]
fn test_empty_statement_fails_the_line() {
    assert_eq!(Expression::try_from("echo;;ls").unwrap_err(), ParseError::EmptyLine);
    assert_eq!(Expression::try_from("echo;").unwrap_err(), ParseError::EmptyLine);
    assert_eq!(Expression::try_from(";echo").unwrap_err(), ParseError::EmptyLine);
    assert_eq!(Expression::try_from("echo; ;ls").unwrap_err(), ParseError::EmptyLine);
}

#[test]
fn test_empty_command_fails_the_line() {
    assert_eq!(Expression::try_from("echo &&").unwrap_err(), ParseError::EmptyLine);
    assert_eq!(Expression::try_from("&& echo").unwrap_err(), ParseError::EmptyLine);
    assert_eq!(Expression::try_from("a && && b").unwrap_err(), ParseError::EmptyLine);
    assert_eq!(Expression::try_from("a; b &&").unwrap_err(), ParseError::EmptyLine);
    assert_eq!(Expression::try_from("a &&&& b").unwrap_err(), ParseError::EmptyLine);
}

#[test]
fn test_and_binds_tighter_than_semicolon() {
    assert_eq!(parsed("a && b; c"), "((a && b) ; c)");
    assert_eq!(parsed("a; b && c"), "(a ; (b && c))");
    assert_eq!(parsed("a && b; c && d"), "((a && b) ; (c && d))");
}

#[test]
fn test_chains_lean_right() {
    assert_eq!(parsed("a; b; c"), "(a ; (b ; c))");
    assert_eq!(parsed("a && b && c"), "(a && (b && c))");
    assert_eq!(parsed("a; b; c; d"), "(a ; (b ; (c ; d)))");
    assert_eq!(parsed("a 1 && b 2 && c 3; d 4"), "((a 1 && (b 2 && c 3)) ; d 4)");
}

#[test]
fn test_leaves_follow_the_segments() {
    let line = "make -j 4 && make test; echo done && ls -l; pwd";
    let mut expected = Vec::new();
    for statement in line.split(';') {
        for command in statement.split("&&") {
            let words: Vec<&str> = command.split_whitespace().collect();
            expected.push(words.join(" "));
        }
    }
    let mut leaves = Vec::new();
    let mut todo = vec![Expression::try_from(line).unwrap()];
    while let Some(expr) = todo.pop() {
        match expr {
            Expression::Compound(compound) => {
                let Compound { left, right, .. } = *compound;
                todo.push(right);
                todo.push(left);
            }
            leaf => leaves.push(shape(leaf)),
        }
    }
    assert_eq!(leaves, expected);
    assert_eq!(leaves, vec!["make -j 4", "make test", "echo done", "ls -l", "pwd"]);
}

#[test]
fn test_whitespace_collapses() {
    assert_eq!(parsed("  echo   1\t2  \n"), "echo 1 2");
    assert_eq!(parsed("echo hi\n"), "echo hi");
    assert_eq!(parsed("echo\u{2003}wide\u{00a0}space"), "echo wide space");
    assert_eq!(parsed("a&&b;c"), "((a && b) ; c)");
    assert_eq!(parsed(" a  &&  b ;  c "), "((a && b) ; c)");
}

#[test]
fn test_single_ampersand_is_a_token() {
    assert_eq!(parsed("a & b"), "a & b");
    assert_eq!(parsed("a&&&b"), "(a && &b)");
    assert_eq!(parsed("a &&& b"), "(a && & b)");
}

#[test]
fn test_exit_ignores_its_arguments() {
    match Cmd::try_from("exit 1").unwrap() {
        Cmd::Builtin(Builtin::Exit(code)) => assert_eq!(code, 0),
        _ => assert!(false),
    }
    assert_eq!(parsed("exit 3; ls"), "(exit#0 ; ls)");
    assert_eq!(parsed("  exit  "), "exit#0");
}

#[test]
fn test_exit_is_a_whole_word() {
    assert_eq!(parsed("exitnow"), "exitnow");
    assert_eq!(parsed("exi"), "exi");
    assert_eq!(parsed("Exit"), "Exit");
    assert_eq!(parsed("echo exit"), "echo exit");
}

#[test]
fn test_unknown_binary_parses() {
    assert_eq!(parsed("no-such-program --flag"), "no-such-program --flag");
}

#[test]
fn test_parsing_twice_gives_the_same_tree() {
    let line = "a 1 && b; exit; c && d e f";
    let first = parsed(line);
    let second = parsed(line);
    assert_eq!(first, second);
    assert_eq!(first, "((a 1 && b) ; (exit#0 ; (c && d e f)))");
    assert_eq!(
        Expression::try_from("a;;b").unwrap_err(),
        Expression::try_from("a;;b").unwrap_err()
    );
}

#[test]
fn test_tokens_are_slices_of_the_line() {
    let line = String::from("echo héllo wörld");
    match Cmd::try_from(line.as_str()).unwrap() {
        Cmd::Invoke(Invoke { binary, mut args }) => {
            assert_eq!(binary.as_ptr(), line.as_ptr());
            let first = args.next().unwrap();
            assert_eq!(first, "héllo");
            assert_eq!(first.as_ptr(), line[5..].as_ptr());
            assert_eq!(args.next(), Some("wörld"));
            assert_eq!(args.next(), None);
            assert_eq!(args.next(), None);
        }
        _ => assert!(false),
    }
}

#[test]
fn test_line_iter_hands_out_tokens_in_order() {
    let mut words = LineIter::new("  one two\tthree  ");
    assert_eq!(words.next(), Some("one"));
    assert_eq!(words.next(), Some("two"));
    assert_eq!(words.next(), Some("three"));
    assert_eq!(words.next(), None);
    assert_eq!(words.next(), None);
    assert_eq!(drain(LineIter::new("")), Vec::<String>::new());
    assert_eq!(drain(LineIter::new(" \n ")), Vec::<String>::new());
}

#[test]
fn test_next_token() {
    assert_eq!(next_token(""), None);
    assert_eq!(next_token("  \t"), None);
    assert_eq!(next_token("a"), Some(("a", "")));
    assert_eq!(next_token("  ab  cd "), Some(("ab", "  cd ")));
    assert_eq!(next_token("é ü"), Some(("é", " ü")));
}

#[test]
fn test_split_str() {
    assert_eq!(split_str("a;b;c", ";"), vec!["a", "b", "c"]);
    assert_eq!(split_str("", ";"), vec![""]);
    assert_eq!(split_str(";", ";"), vec!["", ""]);
    assert_eq!(split_str("a;;b", ";"), vec!["a", "", "b"]);
    assert_eq!(split_str(";a;", ";"), vec!["", "a", ""]);
    assert_eq!(split_str("a&&b", "&&"), vec!["a", "b"]);
    assert_eq!(split_str("a&&&b", "&&"), vec!["a", "&b"]);
    assert_eq!(split_str("a&&&&b", "&&"), vec!["a", "", "b"]);
    assert_eq!(split_str("a&b", "&&"), vec!["a&b"]);
    assert_eq!(split_str("&", "&&"), vec!["&"]);
    assert_eq!(split_str("é&&ü", "&&"), vec!["é", "ü"]);
    assert_eq!(split_str("abc", ""), vec!["abc"]);
    for (text, pat) in [("a;b;;c;", ";"), ("x&&y&&&z&&", "&&"), ("", "&&"), ("&&&", "&&")] {
        let expected: Vec<&str> = text.split(pat).collect();
        assert_eq!(split_str(text, pat), expected);
    }
}

#[test]
fn test_same_text() {
    assert!(same_text("exit", "exit"));
    assert!(same_text("", ""));
    assert!(!same_text("exit", "exi"));
    assert!(!same_text("exit", "exit "));
    assert!(!same_text("exit", "exiT"));
    assert!(!same_text("", "a"));
}
