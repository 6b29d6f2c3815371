use makefile_parser_rs::{Makefile, MakefileCommandArg, ParseError};

#[test]
fn single_assignment_is_recorded() {
    let makefile = Makefile::parse("FOO = bar\n").unwrap();
    assert_eq!(makefile.get_variables().len(), 1);
    assert_eq!(makefile.get_variable("FOO"), Some(&"bar".to_string()));
    assert_eq!(makefile.get_variable("BAR"), None);
}

#[test]
fn assignment_value_may_hold_blanks() {
    let makefile = Makefile::parse("MSG = hello world\n").unwrap();
    assert_eq!(makefile.get_variable("MSG"), Some(&"hello world".to_string()));
}

#[test]
fn invalid_assignment_leaves_count_unaffected() {
    let makefile = Makefile::parse("A = 1\nB = $(A)\nC = 2\n").unwrap();
    // `$` is reserved, so the middle line is dropped silently.
    assert_eq!(makefile.get_variables().len(), 2);
    assert_eq!(makefile.get_variable("A"), Some(&"1".to_string()));
    assert_eq!(makefile.get_variable("B"), None);
    assert_eq!(makefile.get_variable("C"), Some(&"2".to_string()));
}

#[test]
fn later_assignment_overwrites_earlier() {
    let makefile = Makefile::parse("A = 1\nA = 2\n").unwrap();
    assert_eq!(makefile.get_variables().len(), 1);
    assert_eq!(makefile.get_variable("A"), Some(&"2".to_string()));
}

#[test]
fn comments_kept_verbatim_in_order_with_duplicates() {
    let makefile = Makefile::parse("# one\nA = 1\n# two\n# one\n").unwrap();
    let comments = makefile.get_comments();
    assert_eq!(comments.len(), 3);
    assert_eq!(comments[0], "# one");
    assert_eq!(comments[1], "# two");
    assert_eq!(comments[2], "# one");
}

#[test]
fn empty_input_gives_empty_document() {
    let makefile = Makefile::parse("").unwrap();
    assert_eq!(makefile.get_variables().len(), 0);
    assert_eq!(makefile.get_comments().len(), 0);
    assert_eq!(makefile.get_rules().len(), 0);
}

#[test]
fn rule_dependencies_are_extracted() {
    let makefile = Makefile::parse("main: main.cpp my_class.cpp\n\tcc main.cpp\n").unwrap();
    let rule = &makefile.get_rules()[0];
    assert_eq!(rule.target, "main");
    assert_eq!(rule.dependencies, vec!["main.cpp".to_string(), "my_class.cpp".to_string()]);
}

#[test]
fn rule_without_commands_is_legal() {
    let makefile = Makefile::parse("main: main.cpp\n# done\n").unwrap();
    let rules = makefile.get_rules();
    assert_eq!(rules.len(), 1);
    assert_eq!(rules[0].commands.len(), 0);
    assert_eq!(makefile.get_comments().len(), 1);
}

#[test]
fn target_with_punctuation_drops_rule() {
    let makefile = Makefile::parse("ma()in: x.cpp\n\tcc x.cpp\n").unwrap();
    assert_eq!(makefile.get_rules().len(), 0);
}

#[test]
fn reserved_args_name_resolves_to_placeholder() {
    let makefile = Makefile::parse("run: main\n\techo $(args)\n").unwrap();
    let rule = &makefile.get_rules()[0];
    assert_eq!(rule.commands_to_strings(true)[0], "echo USER_DEFINED");
    assert_eq!(rule.commands_to_strings(false)[0], "echo $(args)");
}

#[test]
fn command_tokens_are_classified() {
    let makefile =
        Makefile::parse("CC = cc\nmain: main.cpp\n\t$(CC) -o main main.cpp\n").unwrap();
    let command = &makefile.get_rules()[0].commands[0];
    assert!(matches!(&command[0], MakefileCommandArg::Variable { name, value }
        if name == "CC" && value == "cc"));
    assert!(matches!(&command[1], MakefileCommandArg::Flag(f) if f == "-o"));
    assert!(matches!(&command[2], MakefileCommandArg::Argument(a) if a == "main"));
    assert!(matches!(&command[3], MakefileCommandArg::Argument(a) if a == "main.cpp"));
}

#[test]
fn token_classifier_shapes() {
    assert!(matches!(
        MakefileCommandArg::new("$(CC)"),
        Some(MakefileCommandArg::Variable { name, value }) if name == "CC" && value == "UNKNOWN"
    ));
    assert!(matches!(
        MakefileCommandArg::new("-Wall"),
        Some(MakefileCommandArg::Flag(f)) if f == "-Wall"
    ));
    assert!(matches!(
        MakefileCommandArg::new("main.cpp"),
        Some(MakefileCommandArg::Argument(a)) if a == "main.cpp"
    ));
    assert!(MakefileCommandArg::new("$(CC").is_none());
    assert!(MakefileCommandArg::new("$()").is_none());
    assert!(MakefileCommandArg::new("$(a b)").is_none());
}

#[test]
fn render_and_retokenize_keeps_kinds() {
    let text = "CC = cc\nmain: main.cpp\n\t$(CC) -o main main.cpp\n";
    let makefile = Makefile::parse(text).unwrap();
    let rendered = makefile.get_rules()[0].commands_to_strings(false)[0].clone();
    let text2 = format!("CC = cc\nmain: main.cpp\n\t{rendered}\n");
    let makefile2 = Makefile::parse(&text2).unwrap();
    let first = &makefile.get_rules()[0].commands[0];
    let second = &makefile2.get_rules()[0].commands[0];
    assert_eq!(first.len(), second.len());
    for (a, b) in first.iter().zip(second.iter()) {
        match (a, b) {
            (MakefileCommandArg::Argument(x), MakefileCommandArg::Argument(y)) => {
                assert_eq!(x, y);
            },
            (MakefileCommandArg::Flag(x), MakefileCommandArg::Flag(y)) => {
                assert_eq!(x, y);
            },
            (
                MakefileCommandArg::Variable { name: n1, value: _ },
                MakefileCommandArg::Variable { name: n2, value: _ },
            ) => {
                assert_eq!(n1, n2);
            },
            _ => panic!("token kinds differ after round trip"),
        }
    }
}

#[test]
fn resolving_twice_changes_nothing() {
    let mut makefile =
        Makefile::parse("CC = cc\nmain: main.cpp\n\t$(CC) -o main main.cpp\n").unwrap();
    let before = makefile.get_rules()[0].commands_to_strings(true);
    let second_pass = makefile.fill_variables();
    assert!(second_pass.is_ok());
    let after = makefile.get_rules()[0].commands_to_strings(true);
    assert_eq!(before, after);
}

#[test]
fn error_names_first_undeclared_in_order() {
    let err = Makefile::parse("main: a\n\t$(ONE) $(TWO)\n").unwrap_err();
    assert_eq!(err.message(), "Undeclared variable `ONE`");
    assert_eq!(err.name, "ONE");
}

#[test]
fn error_message_shape() {
    let err = ParseError { name: "CFLAGS".to_string() };
    assert_eq!(err.message(), "Undeclared variable `CFLAGS`");
}

#[test]
fn fresh_document_is_empty() {
    let makefile = Makefile::new();
    assert_eq!(makefile.get_variables().len(), 0);
    assert_eq!(makefile.get_comments().len(), 0);
    assert_eq!(makefile.get_rules().len(), 0);
}
