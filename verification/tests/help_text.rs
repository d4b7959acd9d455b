use mini_repl::command::CommandArgInfo;
use mini_repl::command::CommandArgType;
use mini_repl::command::NewCommand;
use mini_repl::command::TrivialCommandHandler;
use mini_repl::repl::LoopStatus;
use mini_repl::Repl;

fn trivial(desc: &str, types: Vec<CommandArgType>) -> NewCommand<TrivialCommandHandler> {
    NewCommand {
        description: desc.into(),
        args_info: types
            .into_iter()
            .map(CommandArgInfo::new)
            .collect(),
        handler: TrivialCommandHandler::new(),
    }
}

#[test]
fn help_exact_layout() {
    let repl = Repl::builder()
        .add(
            "add",
            trivial("Adds two", vec![CommandArgType::I32, CommandArgType::I32]),
        )
        .build()
        .unwrap();
    let expected = "Available commands:\n\n  add i32 i32  Adds two\n\nOther commands:\n\n  help  Show this help message\n  quit  Quit repl";
    assert_eq!(repl.help(), expected);
}

#[test]
fn help_is_idempotent() {
    let repl = Repl::builder()
        .description("A calculator")
        .add(
            "add",
            trivial("Adds two", vec![CommandArgType::I32, CommandArgType::I32]),
        )
        .add("neg", trivial("Negates", vec![CommandArgType::F32]))
        .build()
        .unwrap();
    let first = repl.help();
    let second = repl.help();
    assert_eq!(first, second);
}

#[test]
fn help_sorts_names_and_keeps_overload_order() {
    let repl = Repl::builder()
        .add("zeta", trivial("Last", vec![]))
        .add("alpha", trivial("First", vec![]))
        .add("zeta", trivial("Later overload", vec![CommandArgType::I32]))
        .build()
        .unwrap();
    let help = repl.help();
    let alpha = help.find("First").unwrap();
    let zeta_first = help.find("Last").unwrap();
    let zeta_second = help.find("Later overload").unwrap();
    assert!(alpha < zeta_first);
    assert!(zeta_first < zeta_second);
}

#[test]
fn help_command_prints_the_help() {
    let mut repl = Repl::builder()
        .add("add", trivial("Adds", vec![CommandArgType::I32]))
        .build()
        .unwrap();
    let help = repl.help();
    assert_eq!(repl.handle_line("help").unwrap(), LoopStatus::Continue);
    assert_eq!(repl.take_output(), vec![help.clone()]);
    // An unambiguous abbreviation reaches the same built-in.
    assert_eq!(repl.handle_line("he").unwrap(), LoopStatus::Continue);
    assert_eq!(repl.take_output(), vec![help]);
}

#[test]
fn help_wraps_long_descriptions() {
    let long = "one two three four five six seven eight nine ten eleven twelve";
    let repl = Repl::builder()
        .text_width(30usize)
        .add("x", trivial(long, vec![]))
        .build()
        .unwrap();
    let help = repl.help();
    let entry_lines: Vec<&str> = help
        .lines()
        .skip_while(|l| !l.starts_with("  x "))
        .take_while(|l| !l.is_empty())
        .collect();
    // The entry is wrapped over several lines, none wider than the
    // configured width, the continuations indented under the description
    // column.
    assert!(entry_lines.len() > 1, "help was not wrapped: {}", help);
    for l in &entry_lines {
        assert!(l.len() <= 30, "line too long: {:?}", l);
    }
    for l in &entry_lines[1..] {
        assert!(l.starts_with("      "), "continuation not indented: {:?}", l);
    }
}
