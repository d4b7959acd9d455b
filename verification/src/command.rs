//! Commands and the pieces they are made of: argument descriptions, the
//! validator that checks raw arguments against them, handler outcomes, and
//! the split of failures into recoverable and critical ones.

use vstd::prelude::*;
use vstd::string::StringExecFns;

use crate::numbers::dec_digits_of;
use crate::numbers::float_text_ok;
use crate::numbers::i32_from_text;
use crate::numbers::is_float_text;
use crate::numbers::parse_i32;
use crate::numbers::u64_to_string;

verus! {

/// Return status of a successfully executed command.
#[derive(Debug, Clone, Copy, PartialEq, Eq, Hash, Structural)]
pub enum CommandStatus {
    /// The loop should continue with the next line.
    Done,
    /// The loop should stop.
    Quit,
}

/// The closed set of argument types a command may declare.
#[derive(Debug, Clone, Copy, PartialEq, Eq, Hash, Structural)]
pub enum CommandArgType {
    /// A 32-bit signed integer, validated by parsing.
    I32,
    /// A 32-bit float, validated by parsing.
    F32,
    /// Arbitrary text; always accepted here.
    Text,
    /// A value the handler itself validates; always accepted here.
    Custom,
}

/// The name under which an argument type is shown in signatures.
pub open spec fn arg_type_text(t: CommandArgType) -> Seq<char> {
    match t {
        CommandArgType::I32 => "i32"@,
        CommandArgType::F32 => "f32"@,
        CommandArgType::Text => "String"@,
        CommandArgType::Custom => "Custom"@,
    }
}

impl CommandArgType {
    /// The name under which this type is shown in signatures.
    pub fn display_name(&self) -> (r: &'static str)
        ensures
            r@ == arg_type_text(*self),
    {
        match self {
            CommandArgType::I32 => "i32",
            CommandArgType::F32 => "f32",
            CommandArgType::Text => "String",
            CommandArgType::Custom => "Custom",
        }
    }
}

/// Mathematical image of a [`CommandArgInfo`].
pub struct ArgInfoV {
    pub arg_type: CommandArgType,
    pub name: Option<Seq<char>>,
}

/// Type and optional display name of one command argument position.
#[derive(Debug)]
pub struct CommandArgInfo {
    pub arg_type: CommandArgType,
    pub name: Option<String>,
}

impl View for CommandArgInfo {
    type V = ArgInfoV;

    open spec fn view(&self) -> ArgInfoV {
        ArgInfoV {
            arg_type: self.arg_type,
            name: match self.name {
                Some(n) => Some(n@),
                None => None,
            },
        }
    }
}

impl DeepView for CommandArgInfo {
    type V = ArgInfoV;

    open spec fn deep_view(&self) -> ArgInfoV {
        self.view()
    }
}

impl Clone for CommandArgInfo {
    fn clone(&self) -> (r: Self)
        ensures
            r == *self,
    {
        CommandArgInfo {
            arg_type: self.arg_type,
            name: match &self.name {
                Some(n) => Some(n.clone()),
                None => None,
            },
        }
    }
}

/// The `name:type` form under which an argument position is shown.
pub open spec fn arg_info_text(i: ArgInfoV) -> Seq<char> {
    (match i.name {
        Some(n) => n,
        None => Seq::empty(),
    }) + ":"@ + arg_type_text(i.arg_type)
}

impl CommandArgInfo {
    /// An unnamed argument position of the given type.
    pub fn new(arg_type: CommandArgType) -> (r: Self)
        ensures
            r@.arg_type == arg_type,
            r@.name is None,
    {
        CommandArgInfo { arg_type, name: None }
    }

    /// A named argument position of the given type.
    pub fn new_with_name(arg_type: CommandArgType, name: &str) -> (r: Self)
        ensures
            r@.arg_type == arg_type,
            r@.name == Some(name@),
    {
        CommandArgInfo { arg_type, name: Some(name.to_owned()) }
    }

    /// This position in its `name:type` form.
    pub fn to_string(self) -> (r: String)
        ensures
            r@ == arg_info_text(self@),
    {
        let mut r = match self.name {
            Some(n) => n,
            None => String::new(),
        };
        r.append(":");
        r.append(self.arg_type.display_name());
        r
    }
}

/// Mathematical image of an [`ArgsError`].
pub enum ArgsErrorV {
    WrongNumberOfArguments { got: nat, expected: nat },
    WrongArgumentValue { argument: Seq<char>, error: Seq<char> },
    NoVariantFound,
}

/// Why a command's arguments were rejected.
#[derive(Debug)]
pub enum ArgsError {
    /// The argument count does not equal the declared count.
    WrongNumberOfArguments { got: usize, expected: usize },
    /// An argument did not parse as its declared type.
    WrongArgumentValue { argument: String, error: String },
    /// No overload accepted the arguments.
    NoVariantFound,
}

impl View for ArgsError {
    type V = ArgsErrorV;

    open spec fn view(&self) -> ArgsErrorV {
        match self {
            ArgsError::WrongNumberOfArguments { got, expected } => {
                ArgsErrorV::WrongNumberOfArguments { got: *got as nat, expected: *expected as nat }
            },
            ArgsError::WrongArgumentValue { argument, error } => {
                ArgsErrorV::WrongArgumentValue { argument: argument@, error: error@ }
            },
            ArgsError::NoVariantFound => ArgsErrorV::NoVariantFound,
        }
    }
}

impl Clone for ArgsError {
    fn clone(&self) -> (r: Self)
        ensures
            r == *self,
    {
        match self {
            ArgsError::WrongNumberOfArguments { got, expected } => {
                ArgsError::WrongNumberOfArguments { got: *got, expected: *expected }
            },
            ArgsError::WrongArgumentValue { argument, error } => {
                ArgsError::WrongArgumentValue { argument: argument.clone(), error: error.clone() }
            },
            ArgsError::NoVariantFound => ArgsError::NoVariantFound,
        }
    }
}

/// The message shown for an argument error.
pub open spec fn args_error_text(e: ArgsErrorV) -> Seq<char> {
    match e {
        ArgsErrorV::WrongNumberOfArguments { got, expected } => "wrong number of arguments: got "@
            + dec_digits_of(got) + ", expected "@ + dec_digits_of(expected),
        ArgsErrorV::WrongArgumentValue { argument, error } => "failed to parse argument value '"@
            + argument + "': "@ + error,
        ArgsErrorV::NoVariantFound => "no command variant found for provided args"@,
    }
}

impl ArgsError {
    /// The message shown for this error.
    pub fn message(&self) -> (r: String)
        ensures
            r@ == args_error_text(self@),
    {
        match self {
            ArgsError::WrongNumberOfArguments { got, expected } => {
                let mut r = "wrong number of arguments: got ".to_owned();
                let g = u64_to_string(*got as u64);
                r.append(g.as_str());
                r.append(", expected ");
                let x = u64_to_string(*expected as u64);
                r.append(x.as_str());
                r
            },
            ArgsError::WrongArgumentValue { argument, error } => {
                let mut r = "failed to parse argument value '".to_owned();
                r.append(argument.as_str());
                r.append("': ");
                r.append(error.as_str());
                r
            },
            ArgsError::NoVariantFound => "no command variant found for provided args".to_owned(),
        }
    }
}

/// A failure a handler marks as one the loop must not swallow: it is passed
/// out of the loop as its result.
#[derive(Debug)]
pub enum CriticalError {
    /// The message of the underlying cause.
    Critical(String),
}

impl View for CriticalError {
    type V = Seq<char>;

    open spec fn view(&self) -> Seq<char> {
        match self {
            CriticalError::Critical(m) => m@,
        }
    }
}

impl Clone for CriticalError {
    fn clone(&self) -> (r: Self)
        ensures
            r == *self,
    {
        match self {
            CriticalError::Critical(m) => CriticalError::Critical(m.clone()),
        }
    }
}

impl CriticalError {
    /// The message of the underlying cause.
    pub fn message(&self) -> (r: String)
        ensures
            r@ == self@,
    {
        match self {
            CriticalError::Critical(m) => m.clone(),
        }
    }
}

/// Wraps the error of a result in [`CriticalError`], leaving `Ok` untouched.
pub trait Critical<T, E>: Sized {
    /// Wrap the contained error so the loop passes it out instead of
    /// reporting it and going on.
    fn into_critical(self) -> Result<T, CriticalError>;
}

impl<T> Critical<T, String> for Result<T, String> {
    fn into_critical(self) -> (r: Result<T, CriticalError>)
        ensures
            r == match self {
                Ok(v) => Ok::<T, CriticalError>(v),
                Err(e) => Err::<T, CriticalError>(CriticalError::Critical(e)),
            },
    {
        match self {
            Ok(v) => Ok(v),
            Err(e) => Err(CriticalError::Critical(e)),
        }
    }
}

/// Mathematical image of a [`HandlerError`].
pub enum HandlerErrorV {
    Args(ArgsErrorV),
    Critical(Seq<char>),
    Other(Seq<char>),
}

/// A failure returned by a command handler.
#[derive(Debug)]
pub enum HandlerError {
    /// The handler rejected the arguments; the loop reports it together with
    /// the usage lines of the command, then goes on.
    Args(ArgsError),
    /// The loop passes this failure out instead of reporting it.
    Critical(CriticalError),
    /// Any other failure; the loop reports it and goes on.
    Other(String),
}

impl View for HandlerError {
    type V = HandlerErrorV;

    open spec fn view(&self) -> HandlerErrorV {
        match self {
            HandlerError::Args(e) => HandlerErrorV::Args(e@),
            HandlerError::Critical(c) => HandlerErrorV::Critical(c@),
            HandlerError::Other(m) => HandlerErrorV::Other(m@),
        }
    }
}

impl Clone for HandlerError {
    fn clone(&self) -> (r: Self)
        ensures
            r == *self,
    {
        match self {
            HandlerError::Args(e) => HandlerError::Args(e.clone()),
            HandlerError::Critical(c) => HandlerError::Critical(c.clone()),
            HandlerError::Other(m) => HandlerError::Other(m.clone()),
        }
    }
}

/// The message shown for a handler failure.
pub open spec fn handler_error_text(e: HandlerErrorV) -> Seq<char> {
    match e {
        HandlerErrorV::Args(a) => args_error_text(a),
        HandlerErrorV::Critical(m) => m,
        HandlerErrorV::Other(m) => m,
    }
}

impl HandlerError {
    /// The message shown for this failure.
    pub fn message(&self) -> (r: String)
        ensures
            r@ == handler_error_text(self@),
    {
        match self {
            HandlerError::Args(e) => e.message(),
            HandlerError::Critical(c) => c.message(),
            HandlerError::Other(m) => m.clone(),
        }
    }
}

/// The image of a handler outcome.
pub open spec fn result_view(r: Result<CommandStatus, HandlerError>) -> Result<
    CommandStatus,
    HandlerErrorV,
> {
    match r {
        Ok(s) => Ok(s),
        Err(e) => Err(e@),
    }
}

/// What a command does when called. The registry treats a handler as an
/// invocable capability and nothing more; the handler must itself validate
/// the arguments, consistently with the argument description registered for
/// it, and may carry its own state.
pub trait ExecuteCommand {
    /// The outcome the handler yields for the given arguments from its
    /// current state.
    spec fn result_model(&self, args: Seq<Seq<char>>) -> Result<CommandStatus, HandlerErrorV>;

    /// Validates the arguments and performs the command's work.
    fn execute(&mut self, args: Vec<String>) -> (r: Result<CommandStatus, HandlerError>)
        ensures
            result_view(r) == old(self).result_model(args.deep_view()),
    ;
}

/// A handler that accepts any arguments and does nothing.
pub struct TrivialCommandHandler {}

impl TrivialCommandHandler {
    /// A new trivial handler.
    pub fn new() -> (r: Self)
        ensures
            forall|args: Seq<Seq<char>>| #[trigger] r.result_model(args) == Ok::<
                CommandStatus,
                HandlerErrorV,
            >(CommandStatus::Done),
    {
        Self {  }
    }
}

impl ExecuteCommand for TrivialCommandHandler {
    open spec fn result_model(&self, args: Seq<Seq<char>>) -> Result<
        CommandStatus,
        HandlerErrorV,
    > {
        Ok(CommandStatus::Done)
    }

    fn execute(&mut self, args: Vec<String>) -> (r: Result<CommandStatus, HandlerError>) {
        Ok(CommandStatus::Done)
    }
}

/// A command: what it is for, which arguments it declares, and the handler
/// that runs it.
pub struct NewCommand<H> {
    /// Description shown in the help message.
    pub description: String,
    /// Names and types of the arguments the command declares.
    pub args_info: Vec<CommandArgInfo>,
    /// The handler; it must validate arguments and perform the command logic.
    pub handler: H,
}

/// The type signature of a command: its argument types in order.
pub open spec fn sig_of(infos: Seq<ArgInfoV>) -> Seq<CommandArgType> {
    infos.map_values(|i: ArgInfoV| i.arg_type)
}

impl<H: ExecuteCommand> NewCommand<H> {
    /// Hands the arguments to the handler.
    pub fn execute(&mut self, args: &[&str]) -> (r: Result<CommandStatus, HandlerError>)
        ensures
            result_view(r) == old(self).handler.result_model(args.deep_view()),
            final(self).description == old(self).description,
            final(self).args_info == old(self).args_info,
    {
        let n = args.len();
        let mut owned: Vec<String> = Vec::new();
        let mut i: usize = 0;
        while i < n
            invariant
                0 <= i <= n,
                n == args@.len(),
                owned.deep_view() =~= args.deep_view().take(i as int),
            decreases n - i,
        {
            let ghost pre = owned.deep_view();
            let x: &str = args[i];
            assert(x@ == args@[i as int]@);
            let o = x.to_owned();
            assert(o@ == x@);
            owned.push(o);
            proof {
                assert(pre.len() == i as int);
                assert(owned@.len() == i + 1);
                assert(owned@[i as int] == o);
                assert(owned@[i as int]@ == args@[i as int]@);
                assert forall|j: int| 0 <= j < i implies owned.deep_view()[j] == pre[j] by {
                    assert(owned@[j] == owned@.drop_last()[j]);
                }
                assert(owned.deep_view() =~= args.deep_view().take(i + 1));
            }
            i = i + 1;
        }
        proof {
            assert(args.deep_view().take(n as int) =~= args.deep_view());
        }
        self.handler.execute(owned)
    }

    /// The names of this command's argument types, in order.
    pub fn arg_types(&self) -> (r: Vec<String>)
        ensures
            crate::text::views_of(r@) =~= sig_of(self.args_info.deep_view()).map_values(
                |t: CommandArgType| arg_type_text(t),
            ),
    {
        let n = self.args_info.len();
        let mut r: Vec<String> = Vec::new();
        let mut i: usize = 0;
        while i < n
            invariant
                0 <= i <= n,
                n == self.args_info@.len(),
                crate::text::views_of(r@) =~= sig_of(self.args_info.deep_view()).map_values(
                    |t: CommandArgType| arg_type_text(t),
                ).take(i as int),
            decreases n - i,
        {
            let ghost pre = crate::text::views_of(r@);
            r.push(self.args_info[i].arg_type.display_name().to_owned());
            proof {
                assert(pre.len() == i as int);
                assert(r@.len() == i + 1);
                assert(self.args_info.deep_view()[i as int] == self.args_info@[i as int]@);
                assert(r@[i as int]@ == arg_type_text(self.args_info.deep_view()[i as int].arg_type));
                assert forall|j: int| 0 <= j < i implies crate::text::views_of(r@)[j] == pre[j] by {
                    assert(r@[j] == r@.drop_last()[j]);
                }
                assert(crate::text::views_of(r@) =~= sig_of(self.args_info.deep_view()).map_values(
                    |t: CommandArgType| arg_type_text(t),
                ).take(i + 1));
            }
            i = i + 1;
        }
        proof {
            assert(sig_of(self.args_info.deep_view()).map_values(
                |t: CommandArgType| arg_type_text(t),
            ).take(n as int) =~= sig_of(self.args_info.deep_view()).map_values(
                |t: CommandArgType| arg_type_text(t),
            ));
        }
        r
    }
}

/// Whether the text `a` passes validation for an argument of type `t`.
pub open spec fn arg_accepted(a: Seq<char>, t: CommandArgType) -> bool {
    match t {
        CommandArgType::I32 => i32_from_text(a) is Ok,
        CommandArgType::F32 => is_float_text(a),
        CommandArgType::Text => true,
        CommandArgType::Custom => true,
    }
}

/// The parse error reported when `a` fails validation for type `t`.
pub open spec fn arg_error_text(a: Seq<char>, t: CommandArgType) -> Seq<char> {
    match t {
        CommandArgType::I32 => i32_from_text(a)->Err_0,
        CommandArgType::F32 => "invalid float literal"@,
        CommandArgType::Text => Seq::empty(),
        CommandArgType::Custom => Seq::empty(),
    }
}

/// Validation outcome of the positions from `i` on: the first rejected
/// position decides.
pub open spec fn validate_from(args: Seq<Seq<char>>, infos: Seq<ArgInfoV>, i: int) -> Result<
    (),
    ArgsErrorV,
>
    decreases args.len() - i,
{
    if i < 0 || i >= args.len() {
        Ok(())
    } else if !arg_accepted(args[i], infos[i].arg_type) {
        Err(
            ArgsErrorV::WrongArgumentValue {
                argument: args[i],
                error: arg_error_text(args[i], infos[i].arg_type),
            },
        )
    } else {
        validate_from(args, infos, i + 1)
    }
}

/// Validation outcome of raw arguments against an argument description: a
/// count mismatch is reported first, then the first position whose text does
/// not parse as its declared type.
pub open spec fn validate_args(args: Seq<Seq<char>>, infos: Seq<ArgInfoV>) -> Result<
    (),
    ArgsErrorV,
> {
    if args.len() != infos.len() {
        Err(ArgsErrorV::WrongNumberOfArguments { got: args.len(), expected: infos.len() })
    } else {
        validate_from(args, infos, 0)
    }
}

/// The image of a validation outcome.
pub open spec fn args_result_view(r: Result<(), ArgsError>) -> Result<(), ArgsErrorV> {
    match r {
        Ok(()) => Ok(()),
        Err(e) => Err(e@),
    }
}

/// Checks raw string arguments against an argument description.
pub struct Validator {}

impl Validator {
    /// Checks the arguments against the description: the count must equal the
    /// declared count, and each position declared numeric must parse as its
    /// type. `Text` and `Custom` positions always pass here.
    pub fn validate(args: Vec<String>, arg_infos: Vec<CommandArgInfo>) -> (r: Result<
        (),
        ArgsError,
    >)
        ensures
            args_result_view(r) == validate_args(args.deep_view(), arg_infos.deep_view()),
    {
        let n = args.len();
        if n != arg_infos.len() {
            return Err(
                ArgsError::WrongNumberOfArguments { got: n, expected: arg_infos.len() },
            );
        }
        let ghost dva = args.deep_view();
        let ghost dvi = arg_infos.deep_view();
        let mut i: usize = 0;
        while i < n
            invariant
                0 <= i <= n,
                n == args@.len(),
                n == arg_infos@.len(),
                dva == args.deep_view(),
                dvi == arg_infos.deep_view(),
                dva.len() == n,
                dvi.len() == n,
                validate_from(dva, dvi, 0) == validate_from(dva, dvi, i as int),
            decreases n - i,
        {
            match arg_infos[i].arg_type {
                CommandArgType::I32 => {
                    match parse_i32(args[i].as_str()) {
                        Err(e) => {
                            return Err(
                                ArgsError::WrongArgumentValue {
                                    argument: args[i].clone(),
                                    error: e,
                                },
                            );
                        },
                        Ok(_) => {},
                    }
                },
                CommandArgType::F32 => {
                    if !float_text_ok(args[i].as_str()) {
                        return Err(
                            ArgsError::WrongArgumentValue {
                                argument: args[i].clone(),
                                error: "invalid float literal".to_owned(),
                            },
                        );
                    }
                },
                CommandArgType::Text => {},
                CommandArgType::Custom => {},
            }
            proof {
                assert(arg_accepted(dva[i as int], dvi[i as int].arg_type));
            }
            i = i + 1;
        }
        Ok(())
    }
}

} // verus!
