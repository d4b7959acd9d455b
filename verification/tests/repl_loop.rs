use std::cell::RefCell;
use std::rc::Rc;

use mini_repl::command::CommandArgInfo;
use mini_repl::command::CommandArgType;
use mini_repl::command::CommandStatus;
use mini_repl::command::CriticalError;
use mini_repl::command::ExecuteCommand;
use mini_repl::command::HandlerError;
use mini_repl::command::HandlerErrorV;
use mini_repl::command::NewCommand;
use mini_repl::command::TrivialCommandHandler;
use mini_repl::command::Validator;
use mini_repl::repl::LoopStatus;
use mini_repl::repl::ReadEvent;
use mini_repl::repl::Resolution;
use mini_repl::Repl;

struct QuittingCommandHandler {}
impl QuittingCommandHandler {
    pub fn new() -> Self {
        Self {}
    }
}

// Each handler provides `result_model`, the ghost half of the trait; it is
// never called at run time.
impl ExecuteCommand for QuittingCommandHandler {
    fn result_model(
        &self,
        _args: vstd::seq::Seq<vstd::seq::Seq<char>>,
    ) -> Result<CommandStatus, HandlerErrorV> {
        unreachable!()
    }

    fn execute(&mut self, _args: Vec<String>) -> Result<CommandStatus, HandlerError> {
        Ok(CommandStatus::Quit)
    }
}

/// Validates against its own argument description, then reports through a
/// shared cell which variant ran and with which raw arguments.
struct RecordingHandler {
    infos: Vec<CommandArgInfo>,
    tag: &'static str,
    seen: Rc<RefCell<Option<(String, Vec<String>)>>>,
}

impl ExecuteCommand for RecordingHandler {
    fn result_model(
        &self,
        _args: vstd::seq::Seq<vstd::seq::Seq<char>>,
    ) -> Result<CommandStatus, HandlerErrorV> {
        unreachable!()
    }

    fn execute(&mut self, args: Vec<String>) -> Result<CommandStatus, HandlerError> {
        if let Err(e) = Validator::validate(args.clone(), self.infos.clone()) {
            return Err(HandlerError::Args(e));
        }
        *self.seen.borrow_mut() = Some((self.tag.to_string(), args));
        Ok(CommandStatus::Done)
    }
}

struct CriticalHandler {}
impl ExecuteCommand for CriticalHandler {
    fn result_model(
        &self,
        _args: vstd::seq::Seq<vstd::seq::Seq<char>>,
    ) -> Result<CommandStatus, HandlerErrorV> {
        unreachable!()
    }

    fn execute(&mut self, _args: Vec<String>) -> Result<CommandStatus, HandlerError> {
        Err(HandlerError::Critical(CriticalError::Critical(
            "the disk vanished".to_string(),
        )))
    }
}

fn recording(
    tag: &'static str,
    types: Vec<CommandArgType>,
    seen: &Rc<RefCell<Option<(String, Vec<String>)>>>,
) -> NewCommand<RecordingHandler> {
    let infos: Vec<CommandArgInfo> = types.iter().map(|t| CommandArgInfo::new(*t)).collect();
    NewCommand {
        description: format!("{} variant", tag),
        args_info: infos.iter().cloned().collect(),
        handler: RecordingHandler {
            infos,
            tag,
            seen: Rc::clone(seen),
        },
    }
}

#[test]
fn repl_quits() {
    let command_foo = NewCommand {
        description: "description".into(),
        args_info: vec![],
        handler: TrivialCommandHandler::new(),
    };

    let mut repl = Repl::builder().add("foo", command_foo).build().unwrap();
    assert_eq!(repl.handle_line("quit").unwrap(), LoopStatus::Break);

    let command_quit = NewCommand {
        description: "description".into(),
        args_info: vec![],
        handler: QuittingCommandHandler::new(),
    };

    let mut repl = Repl::builder().add("foo", command_quit).build().unwrap();
    assert_eq!(repl.handle_line("foo").unwrap(), LoopStatus::Break);
}

#[test]
fn dispatch_tries_variants_in_registration_order() {
    let seen = Rc::new(RefCell::new(None));
    let mut repl = Repl::builder()
        .add("over", recording("one", vec![CommandArgType::I32], &seen))
        .add(
            "over",
            recording(
                "two",
                vec![CommandArgType::I32, CommandArgType::I32],
                &seen,
            ),
        )
        .build()
        .unwrap();

    assert_eq!(repl.handle_line("over 5").unwrap(), LoopStatus::Continue);
    assert_eq!(
        seen.borrow().clone(),
        Some(("one".to_string(), vec!["5".to_string()]))
    );
    assert!(repl.take_output().is_empty());

    assert_eq!(repl.handle_line("over 5 6").unwrap(), LoopStatus::Continue);
    assert_eq!(
        seen.borrow().clone(),
        Some(("two".to_string(), vec!["5".to_string(), "6".to_string()]))
    );
    assert!(repl.take_output().is_empty());
}

#[test]
fn dispatch_surfaces_last_rejection_with_usage() {
    let seen = Rc::new(RefCell::new(None));
    let mut repl = Repl::builder()
        .add("over", recording("one", vec![CommandArgType::I32], &seen))
        .add(
            "over",
            recording(
                "two",
                vec![CommandArgType::I32, CommandArgType::I32],
                &seen,
            ),
        )
        .build()
        .unwrap();

    // Neither variant accepts three arguments: the second (last) rejection
    // is reported, then a usage line per variant.
    assert_eq!(
        repl.handle_line("over 1 2 3").unwrap(),
        LoopStatus::Continue
    );
    assert_eq!(*seen.borrow(), None);
    let out = repl.take_output();
    assert_eq!(
        out,
        vec![
            "Error: wrong number of arguments: got 3, expected 2".to_string(),
            "Usage:".to_string(),
            "  over :i32".to_string(),
            "  over :i32 :i32".to_string(),
        ]
    );
}

#[test]
fn typed_arguments_reach_the_handler() {
    let seen = Rc::new(RefCell::new(None));
    let mut repl = Repl::builder()
        .add(
            "add",
            recording(
                "add",
                vec![CommandArgType::I32, CommandArgType::I32],
                &seen,
            ),
        )
        .build()
        .unwrap();

    assert_eq!(repl.handle_line("add 3 4").unwrap(), LoopStatus::Continue);
    match seen.borrow().clone() {
        Some((tag, args)) => {
            assert_eq!(tag, "add");
            let a: i32 = args[0].parse().unwrap();
            let b: i32 = args[1].parse().unwrap();
            assert_eq!((a, b), (3, 4));
        }
        None => panic!("handler never ran"),
    }
    assert!(repl.take_output().is_empty());

    *seen.borrow_mut() = None;
    assert_eq!(repl.handle_line("add 3 x").unwrap(), LoopStatus::Continue);
    assert_eq!(*seen.borrow(), None);
    let out = repl.take_output();
    assert_eq!(
        out,
        vec![
            "Error: failed to parse argument value 'x': invalid digit found in string"
                .to_string(),
            "Usage:".to_string(),
            "  add :i32 :i32".to_string(),
        ]
    );
}

#[test]
fn prefix_prediction_resolves_unique_prefix() {
    let seen = Rc::new(RefCell::new(None));
    let mut repl = Repl::builder()
        .add("move", recording("move", vec![], &seen))
        .add("make", recording("make", vec![], &seen))
        .build()
        .unwrap();

    // "mo" has the unique completion "move".
    match repl.resolve_prefix("mo") {
        Resolution::Resolved(name) => assert_eq!(name, "move"),
        other => panic!("wrong resolution: {:?}", other),
    }
    assert_eq!(repl.handle_line("mo").unwrap(), LoopStatus::Continue);
    assert_eq!(
        seen.borrow().clone(),
        Some(("move".to_string(), vec![]))
    );
    assert!(repl.take_output().is_empty());

    // "m" is ambiguous: not found, both candidates listed, sorted.
    match repl.resolve_prefix("m") {
        Resolution::NotFound { candidates, listed } => {
            assert_eq!(candidates, vec!["make".to_string(), "move".to_string()]);
            assert!(listed);
        }
        other => panic!("wrong resolution: {:?}", other),
    }
    *seen.borrow_mut() = None;
    assert_eq!(repl.handle_line("m").unwrap(), LoopStatus::Continue);
    assert_eq!(*seen.borrow(), None);
    let out = repl.take_output();
    assert_eq!(
        out,
        vec![
            "Command not found: m".to_string(),
            "Candidates:\n  make\n  move".to_string(),
            "Use 'help' to see available commands.".to_string(),
        ]
    );
}

#[test]
fn prefix_prediction_off_rejects_unique_prefix() {
    let seen = Rc::new(RefCell::new(None));
    let mut repl = Repl::builder()
        .predict_commands(false)
        .add("move", recording("move", vec![], &seen))
        .add("make", recording("make", vec![], &seen))
        .build()
        .unwrap();

    // With prediction off, the unique inexact prefix is not executed and
    // the one candidate is listed.
    match repl.resolve_prefix("mo") {
        Resolution::NotFound { candidates, listed } => {
            assert_eq!(candidates, vec!["move".to_string()]);
            assert!(listed);
        }
        other => panic!("wrong resolution: {:?}", other),
    }
    assert_eq!(repl.handle_line("mo").unwrap(), LoopStatus::Continue);
    assert_eq!(*seen.borrow(), None);
    let out = repl.take_output();
    assert_eq!(
        out,
        vec![
            "Command not found: mo".to_string(),
            "Candidates:\n  move".to_string(),
            "Use 'help' to see available commands.".to_string(),
        ]
    );

    // "m" stays ambiguous with both listed, whatever the setting.
    match repl.resolve_prefix("m") {
        Resolution::NotFound { candidates, listed } => {
            assert_eq!(candidates, vec!["make".to_string(), "move".to_string()]);
            assert!(listed);
        }
        other => panic!("wrong resolution: {:?}", other),
    }

    // An exact name still resolves.
    assert_eq!(repl.handle_line("make").unwrap(), LoopStatus::Continue);
    assert_eq!(
        seen.borrow().clone(),
        Some(("make".to_string(), vec![]))
    );
}

#[test]
fn exact_name_beats_longer_candidates() {
    let seen = Rc::new(RefCell::new(None));
    let mut repl = Repl::builder()
        .add("quitter", recording("quitter", vec![], &seen))
        .build()
        .unwrap();

    // "quit" is an exact (reserved) name even though it is also a prefix of
    // "quitter": the loop stops and no handler runs.
    assert_eq!(repl.handle_line("quit").unwrap(), LoopStatus::Break);
    assert_eq!(*seen.borrow(), None);
    assert!(repl.take_output().is_empty());

    match repl.resolve_prefix("quit") {
        Resolution::Resolved(name) => assert_eq!(name, "quit"),
        other => panic!("wrong resolution: {:?}", other),
    }
    match repl.resolve_prefix("quitter") {
        Resolution::Resolved(name) => assert_eq!(name, "quitter"),
        other => panic!("wrong resolution: {:?}", other),
    }
}

#[test]
fn no_command_found_without_candidates_with_prediction_off() {
    let seen = Rc::new(RefCell::new(None));
    let mut repl = Repl::builder()
        .predict_commands(false)
        .add("move", recording("move", vec![], &seen))
        .build()
        .unwrap();
    // Zero candidates: nothing is listed even with prediction off.
    assert_eq!(repl.handle_line("zzz").unwrap(), LoopStatus::Continue);
    assert_eq!(
        repl.take_output(),
        vec![
            "Command not found: zzz".to_string(),
            "Use 'help' to see available commands.".to_string(),
        ]
    );
}

#[test]
fn no_command_found_without_candidates() {
    let seen = Rc::new(RefCell::new(None));
    let mut repl = Repl::builder()
        .add("move", recording("move", vec![], &seen))
        .build()
        .unwrap();
    assert_eq!(repl.handle_line("zzz").unwrap(), LoopStatus::Continue);
    // No candidate: nothing is listed between the two fixed lines.
    let out = repl.take_output();
    assert_eq!(
        out,
        vec![
            "Command not found: zzz".to_string(),
            "Use 'help' to see available commands.".to_string(),
        ]
    );
}

#[test]
fn critical_failure_propagates_without_report() {
    let mut repl = Repl::builder()
        .add(
            "crash",
            NewCommand {
                description: "fails hard".into(),
                args_info: vec![],
                handler: CriticalHandler {},
            },
        )
        .build()
        .unwrap();

    // The failure itself comes back, and no recovered-error message is
    // written; driving the loop the way run() does stops right here.
    let mut stopped_with: Option<CriticalError> = None;
    let mut steps = 0;
    for line in ["crash", "crash again"] {
        steps += 1;
        match repl.step(ReadEvent::Line(line.to_string())) {
            Ok(LoopStatus::Continue) => continue,
            Ok(LoopStatus::Break) => break,
            Err(c) => {
                stopped_with = Some(c);
                break;
            }
        }
    }
    assert_eq!(steps, 1);
    match stopped_with {
        Some(c) => assert_eq!(c.message(), "the disk vanished"),
        None => panic!("the failure did not propagate"),
    }
    assert!(repl.take_output().is_empty());
}

#[test]
fn quoted_words_reach_the_handler_as_one_argument() {
    let seen = Rc::new(RefCell::new(None));
    let mut repl = Repl::builder()
        .add("say", recording("say", vec![CommandArgType::Text], &seen))
        .build()
        .unwrap();

    assert_eq!(
        repl.handle_line("say 'hello world'").unwrap(),
        LoopStatus::Continue
    );
    assert_eq!(
        seen.borrow().clone(),
        Some(("say".to_string(), vec!["hello world".to_string()]))
    );

    // An unmatched quote is a tokenizer error: reported, loop goes on.
    *seen.borrow_mut() = None;
    assert_eq!(repl.handle_line("say 'oops").unwrap(), LoopStatus::Continue);
    assert_eq!(*seen.borrow(), None);
    let out = repl.take_output();
    assert_eq!(out[0], "Error: missing closing quote");
}

#[test]
fn step_classifies_editor_events() {
    let mut repl = Repl::builder()
        .add(
            "foo",
            NewCommand {
                description: "nothing".into(),
                args_info: vec![],
                handler: TrivialCommandHandler::new(),
            },
        )
        .build()
        .unwrap();

    assert_eq!(repl.step(ReadEvent::Interrupted).unwrap(), LoopStatus::Break);
    assert_eq!(repl.take_output(), vec!["CTRL-C".to_string()]);

    assert_eq!(repl.step(ReadEvent::Eof).unwrap(), LoopStatus::Break);
    assert!(repl.take_output().is_empty());

    assert_eq!(
        repl.step(ReadEvent::Failed("WindowResized".to_string()))
            .unwrap(),
        LoopStatus::Continue
    );
    assert_eq!(repl.take_output(), vec!["Error: WindowResized".to_string()]);

    // Blank lines do nothing.
    assert_eq!(
        repl.step(ReadEvent::Line("   \t ".to_string())).unwrap(),
        LoopStatus::Continue
    );
    assert!(repl.take_output().is_empty());
}

struct FailingHandler {}
impl ExecuteCommand for FailingHandler {
    fn result_model(
        &self,
        _args: vstd::seq::Seq<vstd::seq::Seq<char>>,
    ) -> Result<CommandStatus, HandlerErrorV> {
        unreachable!()
    }

    fn execute(&mut self, _args: Vec<String>) -> Result<CommandStatus, HandlerError> {
        Err(HandlerError::Other("boom".to_string()))
    }
}

struct NoVariantHandler {}
impl ExecuteCommand for NoVariantHandler {
    fn result_model(
        &self,
        _args: vstd::seq::Seq<vstd::seq::Seq<char>>,
    ) -> Result<CommandStatus, HandlerErrorV> {
        unreachable!()
    }

    fn execute(&mut self, _args: Vec<String>) -> Result<CommandStatus, HandlerError> {
        Err(HandlerError::Args(mini_repl::command::ArgsError::NoVariantFound))
    }
}

#[test]
fn other_failures_are_reported_without_usage() {
    let mut repl = Repl::builder()
        .add(
            "frob",
            NewCommand {
                description: "fails softly".into(),
                args_info: vec![],
                handler: FailingHandler {},
            },
        )
        .build()
        .unwrap();
    assert_eq!(repl.handle_line("frob").unwrap(), LoopStatus::Continue);
    assert_eq!(repl.take_output(), vec!["Error: boom".to_string()]);
}

#[test]
fn no_variant_rejection_is_reported_with_usage() {
    let mut repl = Repl::builder()
        .add(
            "pick",
            NewCommand {
                description: "never matches".into(),
                args_info: vec![],
                handler: NoVariantHandler {},
            },
        )
        .build()
        .unwrap();
    assert_eq!(repl.handle_line("pick").unwrap(), LoopStatus::Continue);
    assert_eq!(
        repl.take_output(),
        vec![
            "Error: no command variant found for provided args".to_string(),
            "Usage:".to_string(),
            "  pick ".to_string(),
        ]
    );
}

#[test]
fn builder_settings_reach_the_repl() {
    let repl = Repl::builder()
        .prompt("calc> ")
        .with_hints(false)
        .with_completion(false)
        .with_filename_completion(true)
        .add(
            "foo",
            NewCommand {
                description: "nothing".into(),
                args_info: vec![],
                handler: TrivialCommandHandler::new(),
            },
        )
        .build()
        .unwrap();
    assert_eq!(repl.prompt(), "calc> ");
    assert!(!repl.with_hints());
    assert!(!repl.with_completion());
    assert!(repl.with_filename_completion());
    assert_eq!(
        repl.candidates(""),
        vec!["foo".to_string(), "help".to_string(), "quit".to_string()]
    );
}
