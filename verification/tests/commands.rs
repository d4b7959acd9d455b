use mini_repl::command::CommandArgInfo;
use mini_repl::command::CommandArgType;
use mini_repl::command::CommandStatus;
use mini_repl::command::Critical;
use mini_repl::command::CriticalError;
use mini_repl::command::ExecuteCommand;
use mini_repl::command::HandlerError;
use mini_repl::command::HandlerErrorV;
use mini_repl::command::NewCommand;
use mini_repl::command::TrivialCommandHandler;

struct WithCriticalCommandHandler {}
impl WithCriticalCommandHandler {
    fn new() -> Self {
        WithCriticalCommandHandler {}
    }
}

// The handler provides `result_model`, the ghost half of the trait; it is
// never called at run time.
impl ExecuteCommand for WithCriticalCommandHandler {
    fn result_model(
        &self,
        _args: vstd::seq::Seq<vstd::seq::Seq<char>>,
    ) -> Result<CommandStatus, HandlerErrorV> {
        unreachable!()
    }

    fn execute(&mut self, _args: Vec<String>) -> Result<CommandStatus, HandlerError> {
        Err(HandlerError::Critical(CriticalError::Critical(
            "example error".to_string(),
        )))
    }
}

#[test]
fn manual_command() {
    let mut cmd = NewCommand {
        description: "Test command".into(),
        args_info: vec![CommandArgInfo::new(CommandArgType::Text)],
        handler: TrivialCommandHandler::new(),
    };
    let result = cmd.execute(&["hello"]);

    match result {
        Ok(CommandStatus::Done) => {}
        _ => panic!("Wrong variant"),
    }
}

#[test]
fn command_with_args() {
    let mut cmd = NewCommand {
        description: "Example cmd".into(),
        args_info: vec![
            CommandArgInfo::new(CommandArgType::I32),
            CommandArgInfo::new(CommandArgType::F32),
        ],
        handler: TrivialCommandHandler::new(),
    };
    let result = cmd.execute(&["13", "1.1"]);

    match result {
        Ok(CommandStatus::Done) => {}
        Ok(v) => panic!("Wrong variant: {:?}", v),
        Err(e) => panic!("Error: {:?}", e),
    };
}

#[test]
fn command_with_critical() {
    let mut cmd = NewCommand {
        description: "Example cmd".into(),
        args_info: vec![
            CommandArgInfo::new(CommandArgType::I32),
            CommandArgInfo::new(CommandArgType::F32),
        ],
        handler: WithCriticalCommandHandler::new(),
    };
    let result = cmd.execute(&["13", "1.1"]);

    match result {
        Ok(v) => panic!("Wrong variant: {:?}", v),
        Err(HandlerError::Critical(CriticalError::Critical(m))) => {
            assert_eq!(m, "example error");
        }
        Err(e) => panic!("Wrong error: {:?}", e),
    };
}

#[test]
fn into_critical_wraps_errors() {
    let result: Result<(), String> = Err("broken pipe".to_string());
    let critical = result.into_critical();
    assert!(matches!(critical, Err(CriticalError::Critical(_))));
    match critical {
        Err(e) => assert_eq!(e.message(), "broken pipe"),
        Ok(()) => panic!("Wrong variant"),
    }
    let fine: Result<u8, String> = Ok(3);
    assert!(matches!(fine.into_critical(), Ok(3)));
}

#[test]
fn arg_types_lists_type_names() {
    let cmd = NewCommand {
        description: "typed".into(),
        args_info: vec![
            CommandArgInfo::new_with_name(CommandArgType::I32, "a"),
            CommandArgInfo::new(CommandArgType::F32),
            CommandArgInfo::new(CommandArgType::Text),
            CommandArgInfo::new(CommandArgType::Custom),
        ],
        handler: TrivialCommandHandler::new(),
    };
    assert_eq!(cmd.arg_types(), vec!["i32", "f32", "String", "Custom"]);
}
