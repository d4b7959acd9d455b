use mini_repl::command::CommandArgInfo;
use mini_repl::command::CommandArgType;
use mini_repl::command::NewCommand;
use mini_repl::command::TrivialCommandHandler;
use mini_repl::repl::BuilderError;
use mini_repl::Repl;

#[test]
fn builder_duplicate() {
    let command_x_1 = NewCommand {
        description: "Command X".into(),
        args_info: vec![],
        handler: TrivialCommandHandler::new(),
    };

    let command_x_2 = NewCommand {
        description: "Command X 2".into(),
        args_info: vec![],
        handler: TrivialCommandHandler::new(),
    };

    let result = Repl::builder()
        .add("name_x", command_x_1)
        .add("name_x", command_x_2)
        .build();

    assert!(matches!(result, Err(BuilderError::DuplicateCommands(_))));
}

#[test]
fn builder_overload() {
    let command_x_1 = NewCommand {
        description: "Command X".into(),
        args_info: vec![],
        handler: TrivialCommandHandler::new(),
    };

    let command_x_2 = NewCommand {
        description: "Command X 2".into(),
        args_info: vec![CommandArgInfo::new(CommandArgType::I32)],
        handler: TrivialCommandHandler::new(),
    };

    let result = Repl::builder()
        .add("name_x", command_x_1)
        .add("name_x", command_x_2)
        .build();
    assert!(matches!(result, Ok(_)));
}

#[test]
fn builder_empty() {
    let command_empty = NewCommand {
        description: "".into(),
        args_info: vec![],
        handler: TrivialCommandHandler::new(),
    };

    let result = Repl::builder().add("", command_empty).build();
    assert!(matches!(result, Err(BuilderError::InvalidName(_))));
}

#[test]
fn builder_spaces() {
    let command_empty = NewCommand {
        description: "".into(),
        args_info: vec![],
        handler: TrivialCommandHandler::new(),
    };

    let result = Repl::builder()
        .add("name-with spaces", command_empty)
        .build();
    assert!(matches!(result, Err(BuilderError::InvalidName(_))));
}

#[test]
fn builder_reserved() {
    let command_help = NewCommand {
        description: "".into(),
        args_info: vec![],
        handler: TrivialCommandHandler::new(),
    };

    let result = Repl::builder().add("help", command_help).build();
    assert!(matches!(result, Err(BuilderError::ReservedName(_))));

    let command_quit = NewCommand {
        description: "".into(),
        args_info: vec![],
        handler: TrivialCommandHandler::new(),
    };

    let result = Repl::builder().add("quit", command_quit).build();
    assert!(matches!(result, Err(BuilderError::ReservedName(_))));
}

#[test]
fn builder_duplicate_signature_fails_even_with_different_description() {
    let a = NewCommand {
        description: "first".into(),
        args_info: vec![
            CommandArgInfo::new_with_name(CommandArgType::I32, "a"),
            CommandArgInfo::new(CommandArgType::Text),
        ],
        handler: TrivialCommandHandler::new(),
    };
    let b = NewCommand {
        description: "second".into(),
        args_info: vec![
            CommandArgInfo::new_with_name(CommandArgType::I32, "b"),
            CommandArgInfo::new_with_name(CommandArgType::Text, "t"),
        ],
        handler: TrivialCommandHandler::new(),
    };
    // The type signatures coincide even though names and descriptions differ.
    let result = Repl::builder().add("go", a).add("go", b).build();
    match result {
        Err(BuilderError::DuplicateCommands(name)) => assert_eq!(name, "go"),
        other => panic!("wrong outcome: {:?}", other.map(|_| ())),
    }
}

#[test]
fn builder_error_messages() {
    let e = BuilderError::DuplicateCommands("x".to_string());
    assert_eq!(e.message(), "more than one command with name 'x' added");
    let e = BuilderError::InvalidName("a b".to_string());
    assert_eq!(
        e.message(),
        "name 'a b' cannot be parsed correctly, thus would be impossible to call"
    );
    let e = BuilderError::ReservedName("quit".to_string());
    assert_eq!(e.message(), "'quit' is a reserved command name");
}

#[test]
fn builder_roundtrip_counts() {
    // Three variants under two distinct names, pairwise-distinct signatures.
    let build = |n: usize| NewCommand {
        description: format!("variant {}", n),
        args_info: (0..n)
            .map(|_| CommandArgInfo::new(CommandArgType::Text))
            .collect(),
        handler: TrivialCommandHandler::new(),
    };
    let repl = Repl::builder()
        .add("alpha", build(0))
        .add("beta", build(0))
        .add("alpha", build(1))
        .build()
        .unwrap();
    let help = repl.help();
    // Each variant is one help entry: "alpha" twice, "beta" once.
    assert_eq!(help.matches("\n  alpha ").count(), 2);
    assert_eq!(help.matches("\n  beta ").count(), 1);
}
