//! The shell loop core: a registry of named commands built once, prefix-based
//! name resolution, overload dispatch in registration order, help text, and
//! the per-line state machine that drives them.

use vstd::prelude::*;
use vstd::string::StrSliceExecFns;
use vstd::string::StringExecFns;

use crate::command::arg_info_text;
use crate::command::arg_type_text;
use crate::command::ArgInfoV;
use crate::command::result_view;
use crate::command::sig_of;
use crate::command::ArgsErrorV;
use crate::command::CommandStatus;
use crate::command::CriticalError;
use crate::command::ExecuteCommand;
use crate::command::HandlerError;
use crate::command::HandlerErrorV;
use crate::command::NewCommand;
use crate::text::blank_text;
use crate::text::join_strings;
use crate::text::join_with;
use crate::text::pad_right;
use crate::text::padded;
use crate::text::sort_lex;
use crate::text::sort_strings;
use crate::text::spaces;
use crate::text::space_string;
use crate::text::str_eq;
use crate::text::str_is_blank;
use crate::text::str_is_prefix;
use crate::text::trim_str;
use crate::text::trimmed;
use crate::text::views_of;

verus! {

/// Names the result of `shell_words::split`: how a line divides into words
/// depends on its characters alone; `None` stands for the one possible
/// error, an unmatched quote.
pub uninterp spec fn shell_split(line: Seq<char>) -> Option<Seq<Seq<char>>>;

/// Relies on `shell_words::split` for the shell-like division of a line
/// into words; its only error, an unmatched quote, comes back as `None`.
#[verifier::external_body]
fn split_words(line: &str) -> (r: Option<Vec<String>>)
    ensures
        match r {
            Some(ws) => shell_split(line@) == Some(ws.deep_view()),
            None => shell_split(line@) is None,
        },
{
    match shell_words::split(line) {
        Ok(ws) => Some(ws),
        Err(_) => None,
    }
}

/// Names the result of `textwrap::fill` at the options used for help text
/// (no indent on the first line, the given indent on the following ones):
/// the wrapped text depends on the line, the width and the indent alone.
pub uninterp spec fn wrapped_text(line: Seq<char>, width: int, indent: Seq<char>) -> Seq<char>;

/// Relies on `textwrap::fill` to wrap one help line to the given width,
/// indenting every line after the first.
#[verifier::external_body]
fn fill_wrapped(line: &str, width: usize, indent: &str) -> (r: String)
    ensures
        r@ == wrapped_text(line@, width as int, indent@),
{
    let options = textwrap::Options::new(width).initial_indent("").subsequent_indent(indent);
    textwrap::fill(line, options)
}

/// The built-in command names with their descriptions. They are always
/// resolvable and can never be registered.
pub open spec fn reserved_names() -> Seq<Seq<char>> {
    seq!["help"@, "quit"@]
}

/// The built-in commands with their fixed descriptions, in declaration
/// order: `help`, then `quit`.
pub fn reserved_commands() -> (r: Vec<(String, String)>)
    ensures
        r@.len() == 2,
        r@[0].0@ == "help"@,
        r@[0].1@ == "Show this help message"@,
        r@[1].0@ == "quit"@,
        r@[1].1@ == "Quit repl"@,
{
    let mut r: Vec<(String, String)> = Vec::new();
    r.push(("help".to_owned(), "Show this help message".to_owned()));
    r.push(("quit".to_owned(), "Quit repl".to_owned()));
    r
}

/// State of the loop after a step.
#[derive(Debug, Clone, Copy, PartialEq, Eq, Hash, Structural)]
pub enum LoopStatus {
    /// The loop should go on with the next line.
    Continue,
    /// The loop should stop: the quit command, end of input, or an
    /// interrupt.
    Break,
}

/// Mathematical image of a [`BuilderError`].
pub enum BuilderErrorV {
    DuplicateCommands(Seq<char>),
    InvalidName(Seq<char>),
    ReservedName(Seq<char>),
}

/// Why building the registry failed. The first failing registration decides.
#[derive(Debug)]
pub enum BuilderError {
    /// A second variant under this name declared an identical signature.
    DuplicateCommands(String),
    /// The name is empty or does not read as exactly one word, so it could
    /// never be called.
    InvalidName(String),
    /// The name is one of the reserved built-ins.
    ReservedName(String),
}

impl View for BuilderError {
    type V = BuilderErrorV;

    open spec fn view(&self) -> BuilderErrorV {
        match self {
            BuilderError::DuplicateCommands(n) => BuilderErrorV::DuplicateCommands(n@),
            BuilderError::InvalidName(n) => BuilderErrorV::InvalidName(n@),
            BuilderError::ReservedName(n) => BuilderErrorV::ReservedName(n@),
        }
    }
}

/// The message shown for a build failure.
pub open spec fn builder_error_text(e: BuilderErrorV) -> Seq<char> {
    match e {
        BuilderErrorV::DuplicateCommands(n) => "more than one command with name '"@ + n
            + "' added"@,
        BuilderErrorV::InvalidName(n) => "name '"@ + n
            + "' cannot be parsed correctly, thus would be impossible to call"@,
        BuilderErrorV::ReservedName(n) => "'"@ + n + "' is a reserved command name"@,
    }
}

impl BuilderError {
    /// The message shown for this failure.
    pub fn message(&self) -> (r: String)
        ensures
            r@ == builder_error_text(self@),
    {
        match self {
            BuilderError::DuplicateCommands(n) => {
                let mut r = "more than one command with name '".to_owned();
                r.append(n.as_str());
                r.append("' added");
                r
            },
            BuilderError::InvalidName(n) => {
                let mut r = "name '".to_owned();
                r.append(n.as_str());
                r.append("' cannot be parsed correctly, thus would be impossible to call");
                r
            },
            BuilderError::ReservedName(n) => {
                let mut r = "'".to_owned();
                r.append(n.as_str());
                r.append("' is a reserved command name");
                r
            },
        }
    }
}

/// One name with its overload variants, in registration order.
pub(crate) struct CommandEntry<H> {
    pub(crate) name: String,
    pub(crate) commands: Vec<NewCommand<H>>,
}

/// Whether a command name is callable: nonempty, and read back as exactly
/// one word by the tokenizer.
pub open spec fn valid_name(n: Seq<char>) -> bool {
    n.len() > 0 && match shell_split(n) {
        Some(ws) => ws.len() == 1,
        None => false,
    }
}

/// The registry as a mathematical value: each name with its variants, in
/// first-registration order.
pub type RegModel<H> = Seq<(Seq<char>, Seq<NewCommand<H>>)>;

/// The position of `name` in the registry, or a negative value if absent.
pub open spec fn reg_find<H>(reg: RegModel<H>, name: Seq<char>) -> int
    decreases reg.len(),
{
    if reg.len() == 0 {
        -1
    } else if reg[0].0 == name {
        0
    } else {
        let r = reg_find(reg.drop_first(), name);
        if r < 0 {
            -1
        } else {
            r + 1
        }
    }
}

pub proof fn lemma_reg_find_bounds<H>(reg: RegModel<H>, name: Seq<char>)
    ensures
        reg_find(reg, name) < reg.len(),
        reg_find(reg, name) >= 0 ==> reg[reg_find(reg, name)].0 == name,
        forall|i: int| 0 <= i < reg_find(reg, name) ==> (#[trigger] reg[i]).0 != name,
        reg_find(reg, name) < 0 ==> forall|i: int| 0 <= i < reg.len() ==> (#[trigger] reg[i]).0
            != name,
    decreases reg.len(),
{
    if reg.len() > 0 && reg[0].0 != name {
        lemma_reg_find_bounds(reg.drop_first(), name);
        assert(forall|i: int|
            1 <= i < reg.len() ==> (#[trigger] reg[i]) == reg.drop_first()[i - 1]);
    }
}

/// Well-formedness of a built registry: every name valid, not reserved and
/// unique; every entry carries at least one variant, no two of them with an
/// identical type signature.
pub open spec fn reg_wf<H>(reg: RegModel<H>) -> bool {
    &&& forall|i: int| 0 <= i < reg.len() ==> valid_name((#[trigger] reg[i]).0)
    &&& forall|i: int| 0 <= i < reg.len() ==> !reserved_names().contains((#[trigger] reg[i]).0)
    &&& forall|i: int, j: int| 0 <= i < j < reg.len() ==> (#[trigger] reg[i]).0 != (
    #[trigger] reg[j]).0
    &&& forall|i: int| 0 <= i < reg.len() ==> (#[trigger] reg[i]).1.len() >= 1
    &&& forall|i: int, a: int, b: int|
        #![trigger reg[i].1[a], reg[i].1[b]]
        0 <= i < reg.len() && 0 <= a < b < reg[i].1.len() ==> sig_of(
            reg[i].1[a].args_info.deep_view(),
        ) != sig_of(reg[i].1[b].args_info.deep_view())
}

/// One registration against the registry built so far: reserved names are
/// rejected outright, then the name must be callable, then the new variant's
/// signature must differ from every variant already under that name.
/// Reserved names are single clean words, so rejecting them first leaves
/// every caller-visible outcome unchanged.
pub open spec fn reg_add<H>(reg: RegModel<H>, name: Seq<char>, cmd: NewCommand<H>) -> Result<
    RegModel<H>,
    BuilderErrorV,
> {
    if reserved_names().contains(name) {
        Err(BuilderErrorV::ReservedName(name))
    } else if !valid_name(name) {
        Err(BuilderErrorV::InvalidName(name))
    } else {
        let i = reg_find(reg, name);
        if i >= 0 {
            if exists|a: int|
                0 <= a < reg[i].1.len() && sig_of((#[trigger] reg[i].1[a]).args_info.deep_view())
                    == sig_of(cmd.args_info.deep_view()) {
                Err(BuilderErrorV::DuplicateCommands(name))
            } else {
                Ok(reg.update(i, (name, reg[i].1.push(cmd))))
            }
        } else {
            Ok(reg.push((name, seq![cmd])))
        }
    }
}

/// The registry the given registrations build from `reg`, or the error of
/// the first registration that fails.
pub open spec fn build_steps<H>(reg: RegModel<H>, pairs: Seq<(String, NewCommand<H>)>) -> Result<
    RegModel<H>,
    BuilderErrorV,
>
    decreases pairs.len(),
{
    if pairs.len() == 0 {
        Ok(reg)
    } else {
        match reg_add(reg, pairs[0].0@, pairs[0].1) {
            Err(e) => Err(e),
            Ok(reg2) => build_steps(reg2, pairs.drop_first()),
        }
    }
}

/// The registry built by the given registrations, in order, or the error of
/// the first that fails.
pub open spec fn build_reg<H>(pairs: Seq<(String, NewCommand<H>)>) -> Result<
    RegModel<H>,
    BuilderErrorV,
> {
    build_steps(Seq::empty(), pairs)
}

/// If `name` first occurs at `i`, that is where the registry finds it.
proof fn lemma_reg_find_at<H>(reg: RegModel<H>, name: Seq<char>, i: int)
    requires
        0 <= i < reg.len(),
        reg[i].0 == name,
        forall|j: int| 0 <= j < i ==> (#[trigger] reg[j]).0 != name,
    ensures
        reg_find(reg, name) == i,
    decreases i,
{
    if i > 0 {
        lemma_reg_find_at(reg.drop_first(), name, i - 1);
        assert(forall|j: int|
            0 <= j < i - 1 ==> (#[trigger] reg.drop_first()[j]) == reg[j + 1]);
    }
}

/// A registration that succeeds keeps the registry well formed.
proof fn lemma_reg_add_wf<H>(reg: RegModel<H>, name: Seq<char>, cmd: NewCommand<H>)
    requires
        reg_wf(reg),
        reg_add(reg, name, cmd) is Ok,
    ensures
        reg_wf(reg_add(reg, name, cmd)->Ok_0),
{
    let i = reg_find(reg, name);
    lemma_reg_find_bounds(reg, name);
    let out = reg_add(reg, name, cmd)->Ok_0;
    if i >= 0 {
        let cmds2 = reg[i].1.push(cmd);
        assert(out == reg.update(i, (name, cmds2)));
        assert forall|p: int, a: int, b: int|
            #![trigger out[p].1[a], out[p].1[b]]
            0 <= p < out.len() && 0 <= a < b < out[p].1.len() implies sig_of(
            out[p].1[a].args_info.deep_view(),
        ) != sig_of(out[p].1[b].args_info.deep_view()) by {
            if p == i {
                if b == cmds2.len() - 1 {
                    assert(cmds2[a] == reg[i].1[a]);
                    assert(cmds2[b] == cmd);
                    assert(!(sig_of(reg[i].1[a].args_info.deep_view()) == sig_of(
                        cmd.args_info.deep_view(),
                    )));
                } else {
                    assert(cmds2[a] == reg[i].1[a]);
                    assert(cmds2[b] == reg[i].1[b]);
                }
            }
        }
    } else {
        assert(out == reg.push((name, seq![cmd])));
        assert forall|p: int, q: int| 0 <= p < q < out.len() implies (#[trigger] out[p]).0 != (
        #[trigger] out[q]).0 by {
            if q == out.len() - 1 {
                assert(out[p] == reg[p]);
                assert(out[q].0 == name);
            }
        }
        assert forall|p: int, a: int, b: int|
            #![trigger out[p].1[a], out[p].1[b]]
            0 <= p < out.len() && 0 <= a < b < out[p].1.len() implies sig_of(
            out[p].1[a].args_info.deep_view(),
        ) != sig_of(out[p].1[b].args_info.deep_view()) by {
            if p < reg.len() {
                assert(out[p] == reg[p]);
            } else {
                assert(out[p].1.len() == 1);
            }
        }
    }
}

/// Settings and registrations from which a [`Repl`] is built. The fields are
/// plain data; every rule is enforced by [`ReplBuilder::build`].
pub struct ReplBuilder<H> {
    /// The registrations, in order.
    pub commands: Vec<(String, NewCommand<H>)>,
    /// Shown atop the help message.
    pub description: String,
    /// The prompt shown before each line.
    pub prompt: String,
    /// Width to which help text is wrapped.
    pub text_width: usize,
    /// Whether a unique, inexact prefix resolves to its one completion.
    pub predict_commands: bool,
    /// Whether the line editor should show inline hints.
    pub with_hints: bool,
    /// Whether the line editor should offer completion.
    pub with_completion: bool,
    /// Whether the line editor should also complete file names.
    pub with_filename_completion: bool,
}

impl<H> Default for ReplBuilder<H> {
    /// The defaults: no commands, an empty description, the prompt `"> "`,
    /// width 80, prediction, hints and completion on, file-name completion
    /// off.
    fn default() -> (r: Self)
        ensures
            r.commands@ == Seq::<(String, NewCommand<H>)>::empty(),
            r.description@ == Seq::<char>::empty(),
            r.prompt@ == "> "@,
            r.text_width == 80,
            r.predict_commands,
            r.with_hints,
            r.with_completion,
            !r.with_filename_completion,
    {
        ReplBuilder {
            commands: Vec::new(),
            description: String::new(),
            prompt: "> ".to_owned(),
            text_width: 80,
            predict_commands: true,
            with_hints: true,
            with_completion: true,
            with_filename_completion: false,
        }
    }
}

impl<H: ExecuteCommand> ReplBuilder<H> {
    /// Sets the description shown atop the help message.
    pub fn description(self, v: &str) -> (r: Self)
        ensures
            r.commands == self.commands,
            r.description@ == v@,
            r.prompt == self.prompt,
            r.text_width == self.text_width,
            r.predict_commands == self.predict_commands,
            r.with_hints == self.with_hints,
            r.with_completion == self.with_completion,
            r.with_filename_completion == self.with_filename_completion,
    {
        ReplBuilder { description: v.to_owned(), ..self }
    }

    /// Sets the prompt shown before each line.
    pub fn prompt(self, v: &str) -> (r: Self)
        ensures
            r.commands == self.commands,
            r.description == self.description,
            r.prompt@ == v@,
            r.text_width == self.text_width,
            r.predict_commands == self.predict_commands,
            r.with_hints == self.with_hints,
            r.with_completion == self.with_completion,
            r.with_filename_completion == self.with_filename_completion,
    {
        ReplBuilder { prompt: v.to_owned(), ..self }
    }

    /// Sets the width to which help text is wrapped.
    pub fn text_width(self, v: usize) -> (r: Self)
        ensures
            r.commands == self.commands,
            r.description == self.description,
            r.prompt == self.prompt,
            r.text_width == v,
            r.predict_commands == self.predict_commands,
            r.with_hints == self.with_hints,
            r.with_completion == self.with_completion,
            r.with_filename_completion == self.with_filename_completion,
    {
        ReplBuilder { text_width: v, ..self }
    }

    /// Sets whether a unique, inexact prefix resolves to its one completion.
    pub fn predict_commands(self, v: bool) -> (r: Self)
        ensures
            r.commands == self.commands,
            r.description == self.description,
            r.prompt == self.prompt,
            r.text_width == self.text_width,
            r.predict_commands == v,
            r.with_hints == self.with_hints,
            r.with_completion == self.with_completion,
            r.with_filename_completion == self.with_filename_completion,
    {
        ReplBuilder { predict_commands: v, ..self }
    }

    /// Sets whether the line editor should show inline hints.
    pub fn with_hints(self, v: bool) -> (r: Self)
        ensures
            r.commands == self.commands,
            r.description == self.description,
            r.prompt == self.prompt,
            r.text_width == self.text_width,
            r.predict_commands == self.predict_commands,
            r.with_hints == v,
            r.with_completion == self.with_completion,
            r.with_filename_completion == self.with_filename_completion,
    {
        ReplBuilder { with_hints: v, ..self }
    }

    /// Sets whether the line editor should offer completion.
    pub fn with_completion(self, v: bool) -> (r: Self)
        ensures
            r.commands == self.commands,
            r.description == self.description,
            r.prompt == self.prompt,
            r.text_width == self.text_width,
            r.predict_commands == self.predict_commands,
            r.with_hints == self.with_hints,
            r.with_completion == v,
            r.with_filename_completion == self.with_filename_completion,
    {
        ReplBuilder { with_completion: v, ..self }
    }

    /// Sets whether the line editor should also complete file names.
    pub fn with_filename_completion(self, v: bool) -> (r: Self)
        ensures
            r.commands == self.commands,
            r.description == self.description,
            r.prompt == self.prompt,
            r.text_width == self.text_width,
            r.predict_commands == self.predict_commands,
            r.with_hints == self.with_hints,
            r.with_completion == self.with_completion,
            r.with_filename_completion == v,
    {
        ReplBuilder { with_filename_completion: v, ..self }
    }

    /// Registers a command under `name`. Nothing is checked here: the rules
    /// are enforced by [`ReplBuilder::build`], in registration order.
    pub fn add(self, name: &str, cmd: NewCommand<H>) -> (r: Self)
        ensures
            r.commands@.len() == self.commands@.len() + 1,
            r.commands@.last().0@ == name@,
            r.commands@.last().1 == cmd,
            r.commands@.take(self.commands@.len() as int) == self.commands@,
            r.description == self.description,
            r.prompt == self.prompt,
            r.text_width == self.text_width,
            r.predict_commands == self.predict_commands,
            r.with_hints == self.with_hints,
            r.with_completion == self.with_completion,
            r.with_filename_completion == self.with_filename_completion,
    {
        let mut b = self;
        b.commands.push((name.to_owned(), cmd));
        proof {
            assert(b.commands@.take(b.commands@.len() - 1) =~= b.commands@.drop_last());
        }
        b
    }
}

/// The names of `names` that begin with `p`, in order.
pub open spec fn prefix_filter(names: Seq<Seq<char>>, p: Seq<char>) -> Seq<Seq<char>>
    decreases names.len(),
{
    if names.len() == 0 {
        Seq::empty()
    } else if p.is_prefix_of(names[0]) {
        seq![names[0]] + prefix_filter(names.drop_first(), p)
    } else {
        prefix_filter(names.drop_first(), p)
    }
}

/// Mathematical image of a [`Resolution`].
pub enum ResolutionV {
    Resolved(Seq<char>),
    NotFound { candidates: Seq<Seq<char>>, listed: bool },
}

/// What a typed prefix resolves to: one name, or a failure that carries the
/// candidates sharing the prefix, sorted, and whether they are to be shown.
#[derive(Debug)]
pub enum Resolution {
    /// The prefix names this command: it is an exact name, or, with
    /// prediction on, the one name beginning with it.
    Resolved(String),
    /// No single command: no name begins with the prefix, several do, or one
    /// does inexactly while prediction is off.
    NotFound {
        /// The names beginning with the prefix, in lexicographic order.
        candidates: Vec<String>,
        /// Whether the failure report lists the candidates: only when there
        /// are several, or when prediction is off and the one candidate is
        /// not exact.
        listed: bool,
    },
}

impl View for Resolution {
    type V = ResolutionV;

    open spec fn view(&self) -> ResolutionV {
        match self {
            Resolution::Resolved(n) => ResolutionV::Resolved(n@),
            Resolution::NotFound { candidates, listed } => ResolutionV::NotFound {
                candidates: views_of(candidates@),
                listed: *listed,
            },
        }
    }
}

/// The registry value the given entries stand for.
pub(crate) open spec fn entries_model<H>(es: Seq<CommandEntry<H>>) -> RegModel<H> {
    es.map_values(|e: CommandEntry<H>| (e.name@, e.commands@))
}

/// Whether two argument descriptions declare the same type signature.
fn sigs_equal(a: &Vec<crate::command::CommandArgInfo>, b: &Vec<crate::command::CommandArgInfo>) -> (r:
    bool)
    ensures
        r == (sig_of(a.deep_view()) == sig_of(b.deep_view())),
{
    let n = a.len();
    if n != b.len() {
        proof {
            assert(sig_of(a.deep_view()).len() != sig_of(b.deep_view()).len());
        }
        return false;
    }
    let mut i: usize = 0;
    while i < n
        invariant
            0 <= i <= n,
            n == a@.len(),
            n == b@.len(),
            forall|j: int|
                0 <= j < i ==> #[trigger] sig_of(a.deep_view())[j] == sig_of(b.deep_view())[j],
        decreases n - i,
    {
        if !(a[i].arg_type == b[i].arg_type) {
            proof {
                assert(sig_of(a.deep_view())[i as int] == a@[i as int]@.arg_type);
                assert(sig_of(b.deep_view())[i as int] == b@[i as int]@.arg_type);
            }
            return false;
        }
        proof {
            assert(sig_of(a.deep_view())[i as int] == a@[i as int]@.arg_type);
            assert(sig_of(b.deep_view())[i as int] == b@[i as int]@.arg_type);
        }
        i = i + 1;
    }
    proof {
        assert(sig_of(a.deep_view()) =~= sig_of(b.deep_view()));
    }
    true
}

/// The loop core: the registry of commands, the settings, and the lines of
/// output not yet handed out. Built once by [`ReplBuilder::build`] and never
/// extended afterwards.
pub struct Repl<H> {
    description: String,
    prompt: String,
    text_width: usize,
    entries: Vec<CommandEntry<H>>,
    out: Vec<String>,
    predict_commands: bool,
    with_hints: bool,
    with_completion: bool,
    with_filename_completion: bool,
}

impl<H> Repl<H> {
    /// The registry as a mathematical value.
    pub closed spec fn reg_model(&self) -> RegModel<H> {
        entries_model(self.entries@)
    }

    /// Well-formedness: what [`ReplBuilder::build`] establishes and every
    /// step preserves.
    pub closed spec fn wf(&self) -> bool {
        reg_wf(self.reg_model())
    }

    /// The output lines written and not yet handed out.
    pub closed spec fn out_lines(&self) -> Seq<Seq<char>> {
        views_of(self.out@)
    }

    /// The description shown atop the help message.
    pub closed spec fn description_spec(&self) -> Seq<char> {
        self.description@
    }

    /// The prompt shown before each line.
    pub closed spec fn prompt_spec(&self) -> Seq<char> {
        self.prompt@
    }

    /// The width to which help text is wrapped.
    pub closed spec fn text_width_spec(&self) -> int {
        self.text_width as int
    }

    /// Whether a unique, inexact prefix resolves to its one completion.
    pub closed spec fn predicts(&self) -> bool {
        self.predict_commands
    }

    /// Whether the line editor should show inline hints.
    pub closed spec fn hints_spec(&self) -> bool {
        self.with_hints
    }

    /// Whether the line editor should offer completion.
    pub closed spec fn completion_spec(&self) -> bool {
        self.with_completion
    }

    /// Whether the line editor should also complete file names.
    pub closed spec fn filename_completion_spec(&self) -> bool {
        self.with_filename_completion
    }

    /// The prompt shown before each line.
    pub fn prompt(&self) -> (r: &str)
        ensures
            r@ == self.prompt_spec(),
    {
        self.prompt.as_str()
    }

    /// Whether the line editor should show inline hints.
    pub fn with_hints(&self) -> (r: bool)
        ensures
            r == self.hints_spec(),
    {
        self.with_hints
    }

    /// Whether the line editor should offer completion.
    pub fn with_completion(&self) -> (r: bool)
        ensures
            r == self.completion_spec(),
    {
        self.with_completion
    }

    /// Whether the line editor should also complete file names.
    pub fn with_filename_completion(&self) -> (r: bool)
        ensures
            r == self.filename_completion_spec(),
    {
        self.with_filename_completion
    }
}

impl<H: ExecuteCommand> Repl<H> {
    /// Starts a builder with the default settings.
    pub fn builder() -> (r: ReplBuilder<H>)
        ensures
            r.commands@ == Seq::<(String, NewCommand<H>)>::empty(),
            r.description@ == Seq::<char>::empty(),
            r.prompt@ == "> "@,
            r.text_width == 80,
            r.predict_commands,
            r.with_hints,
            r.with_completion,
            !r.with_filename_completion,
    {
        ReplBuilder::default()
    }
}

impl<H: ExecuteCommand> ReplBuilder<H> {
    /// Checks every registration, in order, and returns the built loop core
    /// or the error of the first registration that fails: a reserved name, a
    /// name that does not read as one word, or a repeated signature under
    /// one name.
    pub fn build(self) -> (r: Result<Repl<H>, BuilderError>)
        ensures
            match r {
                Ok(repl) => {
                    &&& build_reg(self.commands@) == Ok::<RegModel<H>, BuilderErrorV>(
                        repl.reg_model(),
                    )
                    &&& repl.wf()
                    &&& repl.out_lines() == Seq::<Seq<char>>::empty()
                    &&& repl.description_spec() == self.description@
                    &&& repl.prompt_spec() == self.prompt@
                    &&& repl.text_width_spec() == self.text_width as int
                    &&& repl.predicts() == self.predict_commands
                    &&& repl.hints_spec() == self.with_hints
                    &&& repl.completion_spec() == self.with_completion
                    &&& repl.filename_completion_spec() == self.with_filename_completion
                },
                Err(e) => build_reg(self.commands@) == Err::<RegModel<H>, BuilderErrorV>(e@),
            },
    {
        let ghost pairs0 = self.commands@;
        let ReplBuilder {
            commands,
            description,
            prompt,
            text_width,
            predict_commands,
            with_hints,
            with_completion,
            with_filename_completion,
        } = self;
        assert(commands@ == pairs0);
        let mut pairs = commands;
        let mut entries: Vec<CommandEntry<H>> = Vec::new();
        let ghost mut done: int = 0;
        proof {
            assert(pairs0.skip(0) =~= pairs0);
            assert(entries_model(entries@) =~= Seq::<(Seq<char>, Seq<NewCommand<H>>)>::empty());
        }
        loop
            invariant_except_break
                pairs0 == self.commands@,
                0 <= done <= pairs0.len(),
                pairs@ == pairs0.skip(done),
                reg_wf(entries_model(entries@)),
                build_steps(Seq::<(Seq<char>, Seq<NewCommand<H>>)>::empty(), pairs0)
                    == build_steps(entries_model(entries@), pairs0.skip(done)),
            ensures
                done == pairs0.len(),
                reg_wf(entries_model(entries@)),
                build_steps(Seq::<(Seq<char>, Seq<NewCommand<H>>)>::empty(), pairs0) == Ok::<
                    RegModel<H>,
                    BuilderErrorV,
                >(entries_model(entries@)),
            decreases pairs0.len() - done,
        {
            if pairs.is_empty() {
                proof {
                    assert(pairs0.skip(done).len() == 0);
                    assert(done == pairs0.len());
                }
                break;
            }
            let ghost cur = entries_model(entries@);
            let (name, cmd) = pairs.remove(0);
            proof {
                assert(pairs0.skip(done)[0] == (name, cmd));
                assert(pairs0.skip(done)[0].0 == name);
                assert(pairs0.skip(done)[0].1 == cmd);
                assert(pairs@ =~= pairs0.skip(done + 1));
                assert(pairs0.skip(done).drop_first() =~= pairs0.skip(done + 1));
            }
            // Reserved names are rejected before anything else; they are
            // single clean words, so no other check could fire on them.
            let is_help = str_eq(name.as_str(), "help");
            let is_quit = str_eq(name.as_str(), "quit");
            if is_help || is_quit {
                proof {
                    assert(reserved_names()[0] == "help"@);
                    assert(reserved_names()[1] == "quit"@);
                    assert(reserved_names().contains(name@));
                    assert(reg_add(cur, name@, cmd) == Err::<RegModel<H>, BuilderErrorV>(
                        BuilderErrorV::ReservedName(name@),
                    ));
                    assert(build_steps(cur, pairs0.skip(done)) == Err::<
                        RegModel<H>,
                        BuilderErrorV,
                    >(BuilderErrorV::ReservedName(name@)));
                }
                return Err(BuilderError::ReservedName(name));
            }
            proof {
                assert forall|i: int| 0 <= i < reserved_names().len() implies reserved_names()[i]
                    != name@ by {
                    assert(reserved_names()[0] == "help"@);
                    assert(reserved_names()[1] == "quit"@);
                }
                assert(!reserved_names().contains(name@));
            }
            // The name must be nonempty and read back as exactly one word.
            let mut one_token = false;
            match split_words(name.as_str()) {
                None => {},
                Some(ws) => {
                    if ws.len() == 1 {
                        one_token = true;
                    }
                },
            }
            if name.unicode_len() == 0 || !one_token {
                proof {
                    assert(!valid_name(name@));
                    assert(reg_add(cur, name@, cmd) == Err::<RegModel<H>, BuilderErrorV>(
                        BuilderErrorV::InvalidName(name@),
                    ));
                    assert(build_steps(cur, pairs0.skip(done)) == Err::<
                        RegModel<H>,
                        BuilderErrorV,
                    >(BuilderErrorV::InvalidName(name@)));
                }
                return Err(BuilderError::InvalidName(name));
            }
            proof {
                assert(valid_name(name@));
            }
            // Find the entry already registered under this name, if any.
            let n_entries = entries.len();
            let mut found = false;
            let mut idx: usize = 0;
            loop
                invariant_except_break
                    0 <= idx <= n_entries,
                    n_entries == entries@.len(),
                    !found,
                    forall|j: int| 0 <= j < idx ==> (#[trigger] entries@[j]).name@ != name@,
                ensures
                    0 <= idx <= n_entries,
                    n_entries == entries@.len(),
                    found ==> idx < n_entries && entries@[idx as int].name@ == name@,
                    forall|j: int| 0 <= j < idx ==> (#[trigger] entries@[j]).name@ != name@,
                    !found ==> idx == n_entries,
                decreases n_entries - idx,
            {
                if idx == n_entries {
                    break;
                }
                if str_eq(entries[idx].name.as_str(), name.as_str()) {
                    found = true;
                    break;
                }
                idx = idx + 1;
            }
            proof {
                assert(forall|j: int|
                    0 <= j < cur.len() ==> (#[trigger] cur[j]).0 == entries@[j].name@);
                if found {
                    lemma_reg_find_at(cur, name@, idx as int);
                } else {
                    lemma_reg_find_bounds(cur, name@);
                    assert(reg_find(cur, name@) < 0);
                }
            }
            if found {
                let mut entry = entries.remove(idx);
                let ghost cmds0 = entry.commands@;
                // No already registered variant may share the new one's
                // signature.
                let n_cmds = entry.commands.len();
                let mut dup = false;
                let mut c: usize = 0;
                loop
                    invariant_except_break
                        0 <= c <= n_cmds,
                        n_cmds == entry.commands@.len(),
                        entry.commands@ == cmds0,
                        !dup,
                        forall|a: int|
                            0 <= a < c ==> sig_of(
                                (#[trigger] cmds0[a]).args_info.deep_view(),
                            ) != sig_of(cmd.args_info.deep_view()),
                    ensures
                        entry.commands@ == cmds0,
                        dup ==> exists|a: int|
                            0 <= a < cmds0.len() && sig_of(
                                (#[trigger] cmds0[a]).args_info.deep_view(),
                            ) == sig_of(cmd.args_info.deep_view()),
                        !dup ==> forall|a: int|
                            0 <= a < cmds0.len() ==> sig_of(
                                (#[trigger] cmds0[a]).args_info.deep_view(),
                            ) != sig_of(cmd.args_info.deep_view()),
                    decreases n_cmds - c,
                {
                    if c == n_cmds {
                        break;
                    }
                    if sigs_equal(&entry.commands[c].args_info, &cmd.args_info) {
                        dup = true;
                        break;
                    }
                    c = c + 1;
                }
                if dup {
                    proof {
                        assert(cur[idx as int].1 == cmds0);
                        assert(reg_find(cur, name@) == idx as int);
                        assert(exists|a: int|
                            0 <= a < cur[idx as int].1.len() && sig_of(
                                (#[trigger] cur[idx as int].1[a]).args_info.deep_view(),
                            ) == sig_of(cmd.args_info.deep_view()));
                        assert(reg_add(cur, name@, cmd) == Err::<RegModel<H>, BuilderErrorV>(
                            BuilderErrorV::DuplicateCommands(name@),
                        ));
                        assert(build_steps(cur, pairs0.skip(done)) == Err::<
                            RegModel<H>,
                            BuilderErrorV,
                        >(BuilderErrorV::DuplicateCommands(name@)));
                    }
                    return Err(BuilderError::DuplicateCommands(name));
                }
                let ghost nm = name@;
                entry.commands.push(cmd);
                entries.insert(idx, entry);
                proof {
                    assert(cur[idx as int].1 == cmds0);
                    assert(reg_add(cur, nm, cmd) == Ok::<RegModel<H>, BuilderErrorV>(
                        cur.update(idx as int, (nm, cmds0.push(cmd))),
                    ));
                    assert(entries_model(entries@) =~= cur.update(
                        idx as int,
                        (nm, cmds0.push(cmd)),
                    ));
                    lemma_reg_add_wf(cur, nm, cmd);
                }
            } else {
                let ghost nm = name@;
                let mut cmds: Vec<NewCommand<H>> = Vec::new();
                cmds.push(cmd);
                entries.push(CommandEntry { name, commands: cmds });
                proof {
                    assert(cmds@ =~= seq![cmd]);
                    assert(reg_add(cur, nm, cmd) == Ok::<RegModel<H>, BuilderErrorV>(
                        cur.push((nm, seq![cmd])),
                    ));
                    assert(entries_model(entries@) =~= cur.push((nm, seq![cmd])));
                    lemma_reg_add_wf(cur, nm, cmd);
                }
            }
            proof {
                done = done + 1;
            }
        }
        let repl = Repl {
            description,
            prompt,
            text_width,
            entries,
            out: Vec::new(),
            predict_commands,
            with_hints,
            with_completion,
            with_filename_completion,
        };
        proof {
            assert(repl.out_lines() =~= Seq::<Seq<char>>::empty());
        }
        Ok(repl)
    }
}

impl<H: ExecuteCommand> Repl<H> {
    /// The registered names followed by the reserved ones: everything a
    /// prefix is matched against.
    pub closed spec fn all_names(&self) -> Seq<Seq<char>> {
        self.reg_model().map_values(|p: (Seq<char>, Seq<NewCommand<H>>)| p.0) + reserved_names()
    }

    /// The names beginning with `p`, in registration order, reserved last.
    pub closed spec fn candidate_names(&self, p: Seq<char>) -> Seq<Seq<char>> {
        prefix_filter(self.all_names(), p)
    }

    /// What the prefix `p` resolves to. An exact name always wins; an
    /// inexact prefix resolves only when prediction is on and exactly one
    /// name begins with it; any other prefix fails, listing the candidates
    /// only when there are several, or when prediction is off and the one
    /// candidate is inexact.
    pub closed spec fn resolution(&self, p: Seq<char>) -> ResolutionV {
        let cands = self.candidate_names(p);
        if cands.contains(p) {
            ResolutionV::Resolved(p)
        } else if cands.len() == 1 && self.predict_commands {
            ResolutionV::Resolved(cands[0])
        } else {
            ResolutionV::NotFound {
                candidates: sort_lex(cands),
                listed: cands.len() > 1 || (!self.predict_commands && cands.len() == 1),
            }
        }
    }

    /// Every name a prefix is matched against: the registered names in
    /// registration order, then the reserved ones.
    fn all_name_strings(&self) -> (r: Vec<String>)
        ensures
            views_of(r@) == self.all_names(),
    {
        let n = self.entries.len();
        let mut r: Vec<String> = Vec::new();
        let mut i: usize = 0;
        while i < n
            invariant
                0 <= i <= n,
                n == self.entries@.len(),
                views_of(r@) =~= entries_model(self.entries@).map_values(
                    |p: (Seq<char>, Seq<NewCommand<H>>)| p.0,
                ).take(i as int),
            decreases n - i,
        {
            let ghost pre = views_of(r@);
            r.push(self.entries[i].name.clone());
            proof {
                assert(pre.len() == i as int);
                assert(r@.len() == i + 1);
                assert(r@[i as int]@ == self.entries@[i as int].name@);
                assert forall|j: int| 0 <= j < i implies views_of(r@)[j] == pre[j] by {
                    assert(r@[j] == r@.drop_last()[j]);
                }
                assert(views_of(r@) =~= entries_model(self.entries@).map_values(
                    |p: (Seq<char>, Seq<NewCommand<H>>)| p.0,
                ).take(i + 1));
            }
            i = i + 1;
        }
        let ghost reg_names = entries_model(self.entries@).map_values(
            |p: (Seq<char>, Seq<NewCommand<H>>)| p.0,
        );
        proof {
            assert(reg_names.take(n as int) =~= reg_names);
        }
        r.push("help".to_owned());
        r.push("quit".to_owned());
        proof {
            assert(views_of(r@) =~= reg_names + reserved_names());
        }
        r
    }

    /// The names beginning with `prefix`: the registered ones in
    /// registration order, then any reserved one.
    pub fn candidates(&self, prefix: &str) -> (r: Vec<String>)
        ensures
            views_of(r@) == self.candidate_names(prefix@),
    {
        let names = self.all_name_strings();
        let n = names.len();
        let ghost alln = self.all_names();
        let mut r: Vec<String> = Vec::new();
        let mut i: usize = 0;
        proof {
            assert(alln.skip(0) =~= alln);
            assert(views_of(r@) =~= Seq::<Seq<char>>::empty());
        }
        while i < n
            invariant
                0 <= i <= n,
                n == names@.len(),
                views_of(names@) == alln,
                prefix_filter(alln, prefix@) == views_of(r@) + prefix_filter(
                    alln.skip(i as int),
                    prefix@,
                ),
            decreases n - i,
        {
            let ghost pre = views_of(r@);
            proof {
                assert(alln.skip(i as int)[0] == names@[i as int]@);
                assert(alln.skip(i as int).drop_first() =~= alln.skip(i as int + 1));
            }
            if str_is_prefix(prefix, names[i].as_str()) {
                r.push(names[i].clone());
                proof {
                    assert(r@.len() == pre.len() + 1);
                    assert(r@[pre.len() as int]@ == names@[i as int]@);
                    assert forall|j: int| 0 <= j < pre.len() implies views_of(r@)[j] == pre[j] by {
                        assert(r@[j] == r@.drop_last()[j]);
                    }
                    assert(views_of(r@) =~= pre.push(names@[i as int]@));
                    assert(pre + (seq![alln.skip(i as int)[0]] + prefix_filter(
                        alln.skip(i as int + 1),
                        prefix@,
                    )) =~= views_of(r@) + prefix_filter(alln.skip(i as int + 1), prefix@));
                }
            }
            i = i + 1;
        }
        proof {
            assert(prefix_filter(alln.skip(n as int), prefix@) =~= Seq::<Seq<char>>::empty());
            assert(views_of(r@) + Seq::<Seq<char>>::empty() =~= views_of(r@));
        }
        r
    }

    /// Resolves a typed prefix against every registered and reserved name.
    pub fn resolve_prefix(&self, prefix: &str) -> (r: Resolution)
        ensures
            r@ == self.resolution(prefix@),
    {
        let cands = self.candidates(prefix);
        let n = cands.len();
        let mut exact = false;
        let mut j: usize = 0;
        loop
            invariant_except_break
                0 <= j <= n,
                n == cands@.len(),
                !exact,
                forall|k: int| 0 <= k < j ==> (#[trigger] cands@[k])@ != prefix@,
            ensures
                0 <= j <= n,
                n == cands@.len(),
                exact ==> j < n && cands@[j as int]@ == prefix@,
                !exact ==> forall|k: int| 0 <= k < n ==> (#[trigger] cands@[k])@ != prefix@,
            decreases n - j,
        {
            if j == n {
                break;
            }
            if str_eq(cands[j].as_str(), prefix) {
                exact = true;
                break;
            }
            j = j + 1;
        }
        proof {
            if exact {
                assert(views_of(cands@)[j as int] == prefix@);
                assert(self.candidate_names(prefix@).contains(prefix@));
            } else {
                assert forall|k: int| 0 <= k < views_of(cands@).len() implies views_of(cands@)[k]
                    != prefix@ by {
                    assert(views_of(cands@)[k] == cands@[k]@);
                }
                assert(!self.candidate_names(prefix@).contains(prefix@));
            }
        }
        if exact {
            return Resolution::Resolved(prefix.to_owned());
        }
        if n == 1 && self.predict_commands {
            let name = cands[0].clone();
            proof {
                assert(name@ == self.candidate_names(prefix@)[0]);
            }
            return Resolution::Resolved(name);
        }
        let listed = n > 1 || (!self.predict_commands && n == 1);
        let sorted = sort_strings(&cands);
        Resolution::NotFound { candidates: sorted, listed }
    }
}

/// The signature under which a command is shown: its name, a space, and its
/// argument type names joined by spaces.
pub open spec fn signature_text<H>(name: Seq<char>, cmd: NewCommand<H>) -> Seq<char> {
    name + " "@ + join_with(
        sig_of(cmd.args_info.deep_view()).map_values(|t: crate::command::CommandArgType| arg_type_text(t)),
        " "@,
    )
}

/// The image of signature/description pairs.
pub open spec fn pairs_view(s: Seq<(String, String)>) -> Seq<(Seq<char>, Seq<char>)> {
    s.map_values(|p: (String, String)| (p.0@, p.1@))
}

/// The reserved commands as help entries, in declaration order.
pub open spec fn reserved_pairs() -> Seq<(Seq<char>, Seq<char>)> {
    seq![("help"@, "Show this help message"@), ("quit"@, "Quit repl"@)]
}

/// The longest signature among the pairs.
pub open spec fn max_sig_len(pairs: Seq<(Seq<char>, Seq<char>)>) -> int
    decreases pairs.len(),
{
    if pairs.len() == 0 {
        0
    } else {
        let m = max_sig_len(pairs.drop_last());
        if pairs.last().0.len() > m {
            pairs.last().0.len() as int
        } else {
            m
        }
    }
}

/// Four more than the signature column width, capped at the machine limit:
/// the indent of a help entry's wrapped continuation lines.
pub open spec fn indent_width(w: int) -> int {
    if w + 4 <= usize::MAX {
        w + 4
    } else {
        usize::MAX as int
    }
}

/// One help entry before wrapping: two spaces, the signature padded to the
/// column width, two spaces, the description.
pub open spec fn entry_line(p: (Seq<char>, Seq<char>), w: int) -> Seq<char> {
    "  "@ + padded(p.0, w) + "  "@ + p.1
}

/// The help entries, each wrapped and preceded by a line break.
pub open spec fn entries_block(pairs: Seq<(Seq<char>, Seq<char>)>, w: int, width: int) -> Seq<
    char,
>
    decreases pairs.len(),
{
    if pairs.len() == 0 {
        Seq::empty()
    } else {
        entries_block(pairs.drop_last(), w, width) + "\n"@ + wrapped_text(
            entry_line(pairs.last(), w),
            width,
            spaces(indent_width(w) as nat),
        )
    }
}

/// A block of help entries, aligned to the longest signature among them;
/// empty when there are none.
pub open spec fn help_block(pairs: Seq<(Seq<char>, Seq<char>)>, width: int) -> Seq<char> {
    entries_block(pairs, max_sig_len(pairs), width)
}

impl<H: ExecuteCommand> Repl<H> {
    /// The variants registered under `name`, in registration order.
    pub closed spec fn variants_of(&self, name: Seq<char>) -> Seq<NewCommand<H>> {
        self.reg_model()[reg_find(self.reg_model(), name)].1
    }

    /// Whether a command is registered under `name`.
    pub closed spec fn has_name(&self, name: Seq<char>) -> bool {
        reg_find(self.reg_model(), name) >= 0
    }

    /// The help entries of the variants under `name`: each variant's
    /// signature with its description. Nothing for an unregistered name.
    pub closed spec fn pairs_of_name(&self, name: Seq<char>) -> Seq<(Seq<char>, Seq<char>)> {
        if self.has_name(name) {
            self.variants_of(name).map_values(
                |cmd: NewCommand<H>| (signature_text(name, cmd), cmd.description@),
            )
        } else {
            Seq::empty()
        }
    }

    /// The help entries of the given names, in order.
    pub closed spec fn pairs_for_names(&self, names: Seq<Seq<char>>) -> Seq<
        (Seq<char>, Seq<char>),
    >
        decreases names.len(),
    {
        if names.len() == 0 {
            Seq::empty()
        } else {
            self.pairs_of_name(names[0]) + self.pairs_for_names(names.drop_first())
        }
    }

    /// The registered names in lexicographic order.
    pub closed spec fn sorted_names(&self) -> Seq<Seq<char>> {
        sort_lex(self.reg_model().map_values(|p: (Seq<char>, Seq<NewCommand<H>>)| p.0))
    }

    /// The help entries of the registered commands, names sorted, variants
    /// in registration order.
    pub closed spec fn user_pairs(&self) -> Seq<(Seq<char>, Seq<char>)> {
        self.pairs_for_names(self.sorted_names())
    }

    /// The whole help message: the description, the registered commands
    /// sorted by name, then the reserved commands, wrapped to the configured
    /// width and trimmed.
    pub closed spec fn help_text(&self) -> Seq<char> {
        trimmed(
            "\n"@ + self.description@ + "\n\nAvailable commands:\n"@ + help_block(
                self.user_pairs(),
                self.text_width as int,
            ) + "\n\nOther commands:\n"@ + help_block(reserved_pairs(), self.text_width as int)
                + "\n        "@,
        )
    }

    /// Lays one block of help entries out: signatures padded to one column,
    /// descriptions after them, lines wrapped to the configured width.
    fn format_help_entries(&self, entries: &Vec<(String, String)>) -> (r: String)
        ensures
            r@ == help_block(pairs_view(entries@), self.text_width as int),
    {
        let n = entries.len();
        if n == 0 {
            return String::new();
        }
        let ghost pv = pairs_view(entries@);
        // The column width: the longest signature.
        let mut w: usize = 0;
        let mut i: usize = 0;
        proof {
            assert(pv.take(0) =~= Seq::<(Seq<char>, Seq<char>)>::empty());
        }
        while i < n
            invariant
                0 <= i <= n,
                n == entries@.len(),
                pv == pairs_view(entries@),
                w as int == max_sig_len(pv.take(i as int)),
            decreases n - i,
        {
            let l = entries[i].0.as_str().unicode_len();
            if l > w {
                w = l;
            }
            proof {
                assert(pv.take(i + 1).drop_last() =~= pv.take(i as int));
                assert(pv.take(i + 1).last() == pv[i as int]);
                assert(pv[i as int].0 == entries@[i as int].0@);
            }
            i = i + 1;
        }
        proof {
            assert(pv.take(n as int) =~= pv);
        }
        let iw: usize = if w <= usize::MAX - 4 {
            w + 4
        } else {
            usize::MAX
        };
        let indent = space_string(iw);
        let mut r = String::new();
        let mut k: usize = 0;
        proof {
            assert(entries_block(pv.take(0), w as int, self.text_width as int) =~= Seq::<
                char,
            >::empty());
            assert(pv.take(0) =~= Seq::<(Seq<char>, Seq<char>)>::empty());
        }
        while k < n
            invariant
                0 <= k <= n,
                n == entries@.len(),
                pv == pairs_view(entries@),
                w as int == max_sig_len(pv),
                iw as int == indent_width(w as int),
                indent@ == spaces(iw as nat),
                r@ == entries_block(pv.take(k as int), w as int, self.text_width as int),
            decreases n - k,
        {
            let mut line = "  ".to_owned();
            let sig = pad_right(entries[k].0.as_str(), w);
            line.append(sig.as_str());
            line.append("  ");
            line.append(entries[k].1.as_str());
            proof {
                assert(line@ == entry_line(pv[k as int], w as int));
            }
            let wrapped = fill_wrapped(line.as_str(), self.text_width, indent.as_str());
            r.append("\n");
            r.append(wrapped.as_str());
            proof {
                assert(pv.take(k + 1).drop_last() =~= pv.take(k as int));
                assert(pv.take(k + 1).last() == pv[k as int]);
            }
            k = k + 1;
        }
        proof {
            assert(pv.take(n as int) =~= pv);
        }
        r
    }

    /// The formatted help message: the description, every command's every
    /// variant as its own entry sorted by name, and the reserved commands
    /// after them, unsorted.
    pub fn help(&self) -> (r: String)
        ensures
            r@ == self.help_text(),
    {
        // The registered names, sorted.
        let n_entries = self.entries.len();
        let mut names: Vec<String> = Vec::new();
        let mut i: usize = 0;
        let ghost reg_names = self.reg_model().map_values(
            |p: (Seq<char>, Seq<NewCommand<H>>)| p.0,
        );
        while i < n_entries
            invariant
                0 <= i <= n_entries,
                n_entries == self.entries@.len(),
                reg_names == self.reg_model().map_values(
                    |p: (Seq<char>, Seq<NewCommand<H>>)| p.0,
                ),
                views_of(names@) =~= reg_names.take(i as int),
            decreases n_entries - i,
        {
            let ghost pre = views_of(names@);
            names.push(self.entries[i].name.clone());
            proof {
                assert(pre.len() == i as int);
                assert(names@[i as int]@ == self.entries@[i as int].name@);
                assert forall|j: int| 0 <= j < i implies views_of(names@)[j] == pre[j] by {
                    assert(names@[j] == names@.drop_last()[j]);
                }
                assert(views_of(names@) =~= reg_names.take(i + 1));
            }
            i = i + 1;
        }
        proof {
            assert(reg_names.take(n_entries as int) =~= reg_names);
        }
        let sorted = sort_strings(&names);
        proof {
            assert(views_of(sorted@) == self.sorted_names());
        }
        // The help entries, sorted by name, variants in registration order.
        let ns = sorted.len();
        let mut pairs: Vec<(String, String)> = Vec::new();
        let mut k: usize = 0;
        let ghost sv = views_of(sorted@);
        proof {
            assert(sv.skip(0) =~= sv);
            assert(pairs_view(pairs@) =~= Seq::<(Seq<char>, Seq<char>)>::empty());
        }
        while k < ns
            invariant
                0 <= k <= ns,
                ns == sorted@.len(),
                sv == views_of(sorted@),
                self.pairs_for_names(sv) == pairs_view(pairs@) + self.pairs_for_names(
                    sv.skip(k as int),
                ),
            decreases ns - k,
        {
            proof {
                assert(sv.skip(k as int)[0] == sorted@[k as int]@);
                assert(sv.skip(k as int).drop_first() =~= sv.skip(k as int + 1));
            }
            let name = &sorted[k];
            // Find the entry registered under this name: the first one.
            let n_e = self.entries.len();
            let mut found = false;
            let mut idx: usize = 0;
            loop
                invariant_except_break
                    0 <= idx <= n_e,
                    n_e == self.entries@.len(),
                    !found,
                    forall|j: int| 0 <= j < idx ==> (#[trigger] self.entries@[j]).name@ != name@,
                ensures
                    0 <= idx <= n_e,
                    n_e == self.entries@.len(),
                    found ==> idx < n_e && self.entries@[idx as int].name@ == name@,
                    forall|j: int| 0 <= j < idx ==> (#[trigger] self.entries@[j]).name@ != name@,
                    !found ==> idx == n_e,
                decreases n_e - idx,
            {
                if idx == n_e {
                    break;
                }
                if str_eq(self.entries[idx].name.as_str(), name.as_str()) {
                    found = true;
                    break;
                }
                idx = idx + 1;
            }
            proof {
                assert(forall|j: int|
                    0 <= j < self.reg_model().len() ==> (#[trigger] self.reg_model()[j]).0
                        == self.entries@[j].name@);
                if found {
                    lemma_reg_find_at(self.reg_model(), name@, idx as int);
                } else {
                    lemma_reg_find_bounds(self.reg_model(), name@);
                    assert(reg_find(self.reg_model(), name@) < 0);
                    assert(self.pairs_of_name(name@) =~= Seq::<(Seq<char>, Seq<char>)>::empty());
                }
            }
            if found {
                let ghost pon = self.pairs_of_name(name@);
                let entry = &self.entries[idx];
                let nc = entry.commands.len();
                let mut c: usize = 0;
                let ghost pairs_pre = pairs_view(pairs@);
                proof {
                    assert(pon.len() == nc as int);
                }
                while c < nc
                    invariant
                        0 <= c <= nc,
                        nc == entry.commands@.len(),
                        idx < self.entries@.len(),
                        entry == &self.entries@[idx as int],
                        pon == self.pairs_of_name(name@),
                        pon.len() == nc as int,
                        reg_find(self.reg_model(), name@) == idx as int,
                        pairs_pre.len() + c == pairs_view(pairs@).len(),
                        pairs_view(pairs@) == pairs_pre + pon.take(c as int),
                        name@ == sv.skip(k as int)[0],
                    decreases nc - c,
                {
                    let cmd = &entry.commands[c];
                    let mut sig = name.as_str().to_owned();
                    sig.append(" ");
                    let types = cmd.arg_types();
                    let joined = join_strings(&types, " ");
                    sig.append(joined.as_str());
                    let desc = cmd.description.clone();
                    proof {
                        assert(self.variants_of(name@)[c as int] == entry.commands@[c as int]);
                        assert(views_of(types@) =~= sig_of(
                            entry.commands@[c as int].args_info.deep_view(),
                        ).map_values(|t: crate::command::CommandArgType| arg_type_text(t)));
                        assert(sig@ == signature_text(name@, entry.commands@[c as int]));
                        assert(pon[c as int] == (
                            signature_text(name@, entry.commands@[c as int]),
                            entry.commands@[c as int].description@,
                        ));
                    }
                    let ghost pv_pre = pairs_view(pairs@);
                    pairs.push((sig, desc));
                    proof {
                        assert forall|j: int| 0 <= j < pv_pre.len() implies pairs_view(pairs@)[j]
                            == pv_pre[j] by {
                            assert(pairs@[j] == pairs@.drop_last()[j]);
                        }
                        assert(pairs_view(pairs@)[pv_pre.len() as int] == pon[c as int]);
                        assert(pv_pre == pairs_pre + pon.take(c as int));
                        assert(pon.take(c + 1) =~= pon.take(c as int).push(pon[c as int]));
                        assert(pairs_view(pairs@).len() == pv_pre.len() + 1);
                        assert forall|j: int| 0 <= j < pairs_view(pairs@).len() implies pairs_view(
                            pairs@,
                        )[j] == (pairs_pre + pon.take(c + 1))[j] by {
                            if j < pv_pre.len() {
                                assert(pairs_view(pairs@)[j] == pv_pre[j]);
                            }
                        }
                        assert(pairs_view(pairs@) =~= pairs_pre + pon.take(c + 1));
                    }
                    c = c + 1;
                }
                proof {
                    assert(pon.take(nc as int) =~= pon);
                    assert(self.pairs_for_names(sv.skip(k as int)) == pon + self.pairs_for_names(
                        sv.skip(k as int + 1),
                    ));
                    assert((pairs_pre + pon) + self.pairs_for_names(sv.skip(k as int + 1))
                        =~= pairs_pre + (pon + self.pairs_for_names(sv.skip(k as int + 1))));
                }
            } else {
                proof {
                    assert(self.pairs_for_names(sv.skip(k as int)) == self.pairs_of_name(name@)
                        + self.pairs_for_names(sv.skip(k as int + 1)));
                    assert(self.pairs_of_name(name@) + self.pairs_for_names(sv.skip(k as int + 1))
                        =~= self.pairs_for_names(sv.skip(k as int + 1)));
                }
            }
            k = k + 1;
        }
        proof {
            assert(self.pairs_for_names(sv.skip(ns as int)) =~= Seq::<
                (Seq<char>, Seq<char>),
            >::empty());
            assert(pairs_view(pairs@) + Seq::<(Seq<char>, Seq<char>)>::empty() =~= pairs_view(
                pairs@,
            ));
            assert(pairs_view(pairs@) == self.user_pairs());
        }
        let user_block = self.format_help_entries(&pairs);
        let reserved = reserved_commands();
        proof {
            assert(pairs_view(reserved@) =~= reserved_pairs());
        }
        let other_block = self.format_help_entries(&reserved);
        let mut msg = "\n".to_owned();
        msg.append(self.description.as_str());
        msg.append("\n\nAvailable commands:\n");
        msg.append(user_block.as_str());
        msg.append("\n\nOther commands:\n");
        msg.append(other_block.as_str());
        msg.append("\n        ");
        trim_str(msg.as_str())
    }
}

/// Whether two commands agree in everything but their handler's state.
pub open spec fn cmd_same_shape<H>(a: NewCommand<H>, b: NewCommand<H>) -> bool {
    a.description == b.description && a.args_info == b.args_info
}

/// The outcome of trying each variant in registration order: the first
/// outcome that is not an argument rejection decides; when every variant
/// rejects the arguments, the last rejection stands.
pub open spec fn dispatch_outcome<H: ExecuteCommand>(
    cmds: Seq<NewCommand<H>>,
    args: Seq<Seq<char>>,
) -> Result<CommandStatus, HandlerErrorV>
    decreases cmds.len(),
{
    if cmds.len() == 0 {
        Err(HandlerErrorV::Args(ArgsErrorV::NoVariantFound))
    } else {
        let first = cmds[0].handler.result_model(args);
        if cmds.len() == 1 {
            first
        } else {
            match first {
                Err(HandlerErrorV::Args(_)) => dispatch_outcome(cmds.drop_first(), args),
                _ => first,
            }
        }
    }
}

/// When every variant rejects the arguments, dispatch returns the last
/// variant's rejection.
pub proof fn lemma_dispatch_all_rejected<H: ExecuteCommand>(
    cmds: Seq<NewCommand<H>>,
    args: Seq<Seq<char>>,
)
    requires
        cmds.len() >= 1,
        forall|k: int|
            0 <= k < cmds.len() ==> (#[trigger] cmds[k].handler.result_model(args)) matches Err(
                HandlerErrorV::Args(_),
            ),
    ensures
        dispatch_outcome(cmds, args) == cmds.last().handler.result_model(args),
    decreases cmds.len(),
{
    if cmds.len() > 1 {
        assert(forall|k: int|
            0 <= k < cmds.drop_first().len() ==> (#[trigger] cmds.drop_first()[k]) == cmds[k + 1]);
        lemma_dispatch_all_rejected(cmds.drop_first(), args);
    }
}

impl<H: ExecuteCommand> Repl<H> {
    /// Whether `a` and `b` hold the same registry names, argument
    /// descriptions, command descriptions and settings; only the handlers'
    /// state and the pending output may differ.
    pub closed spec fn same_shape(&self, other: &Repl<H>) -> bool {
        &&& self.description == other.description
        &&& self.prompt == other.prompt
        &&& self.text_width == other.text_width
        &&& self.predict_commands == other.predict_commands
        &&& self.with_hints == other.with_hints
        &&& self.with_completion == other.with_completion
        &&& self.with_filename_completion == other.with_filename_completion
        &&& self.entries@.len() == other.entries@.len()
        &&& forall|i: int|
            0 <= i < self.entries@.len() ==> (#[trigger] other.entries@[i]).name
                == self.entries@[i].name
        &&& forall|i: int|
            0 <= i < self.entries@.len() ==> (#[trigger] other.entries@[i]).commands@.len()
                == self.entries@[i].commands@.len()
        &&& forall|i: int, k: int|
            #![trigger other.entries@[i].commands@[k]]
            0 <= i < self.entries@.len() && 0 <= k < self.entries@[i].commands@.len()
                ==> cmd_same_shape(self.entries@[i].commands@[k], other.entries@[i].commands@[k])
    }

    /// A well-formed registry stays well formed under a shape-preserving
    /// change.
    proof fn lemma_same_shape_wf(&self, other: &Repl<H>)
        requires
            self.wf(),
            self.same_shape(other),
        ensures
            other.wf(),
    {
        let a = self.reg_model();
        let b = other.reg_model();
        assert(a.len() == b.len());
        assert forall|i: int| 0 <= i < b.len() implies (#[trigger] b[i]).0 == a[i].0 by {
            assert(other.entries@[i].name == self.entries@[i].name);
        }
        assert forall|i: int| 0 <= i < b.len() implies valid_name((#[trigger] b[i]).0) by {
            assert(a[i].0 == b[i].0);
        }
        assert forall|i: int| 0 <= i < b.len() implies !reserved_names().contains(
            (#[trigger] b[i]).0,
        ) by {
            assert(a[i].0 == b[i].0);
        }
        assert forall|i: int, a2: int, b2: int|
            #![trigger b[i].1[a2], b[i].1[b2]]
            0 <= i < b.len() && 0 <= a2 < b2 < b[i].1.len() implies sig_of(
            b[i].1[a2].args_info.deep_view(),
        ) != sig_of(b[i].1[b2].args_info.deep_view()) by {
            assert(cmd_same_shape(self.entries@[i].commands@[a2], other.entries@[i].commands@[a2]));
            assert(cmd_same_shape(self.entries@[i].commands@[b2], other.entries@[i].commands@[b2]));
            assert(a[i].1[a2].args_info == b[i].1[a2].args_info);
            assert(a[i].1[b2].args_info == b[i].1[b2].args_info);
        }
    }

    /// The outcome of one resolved command: `help` prints the help and
    /// carries on, `quit` stops the loop, anything else is dispatched to the
    /// variants registered under the name.
    pub closed spec fn command_outcome(&self, name: Seq<char>, args: Seq<Seq<char>>) -> Result<
        CommandStatus,
        HandlerErrorV,
    > {
        if name == "help"@ {
            Ok(CommandStatus::Done)
        } else if name == "quit"@ {
            Ok(CommandStatus::Quit)
        } else {
            dispatch_outcome(self.variants_of(name), args)
        }
    }

    /// What running a resolved command itself writes: the help text for
    /// `help`, nothing otherwise.
    pub closed spec fn command_output(&self, name: Seq<char>) -> Seq<Seq<char>> {
        if name == "help"@ {
            seq![self.help_text()]
        } else {
            Seq::empty()
        }
    }

    /// Appends one line to the pending output.
    fn out_line(&mut self, s: String)
        ensures
            final(self).out_lines() == old(self).out_lines().push(s@),
            final(self).entries == old(self).entries,
            final(self).description == old(self).description,
            final(self).prompt == old(self).prompt,
            final(self).text_width == old(self).text_width,
            final(self).predict_commands == old(self).predict_commands,
            final(self).with_hints == old(self).with_hints,
            final(self).with_completion == old(self).with_completion,
            final(self).with_filename_completion == old(self).with_filename_completion,
    {
        let ghost pre = views_of(self.out@);
        let ghost sv = s@;
        self.out.push(s);
        proof {
            assert forall|j: int| 0 <= j < pre.len() implies views_of(self.out@)[j] == pre[j] by {
                assert(self.out@[j] == self.out@.drop_last()[j]);
            }
            assert(views_of(self.out@)[pre.len() as int] == sv);
            assert(views_of(self.out@) =~= pre.push(sv));
        }
    }

    /// Runs the command `name` resolved to: the reserved ones directly, any
    /// other by trying its variants in registration order, the first one
    /// not rejecting the arguments deciding; when all reject, the last
    /// rejection is the outcome.
    fn handle_command(&mut self, name: &str, args: &[&str]) -> (r: Result<
        CommandStatus,
        HandlerError,
    >)
        requires
            old(self).wf(),
            name@ == "help"@ || name@ == "quit"@ || old(self).has_name(name@),
        ensures
            final(self).wf(),
            old(self).same_shape(final(self)),
            result_view(r) == old(self).command_outcome(name@, args.deep_view()),
            final(self).out_lines() == old(self).out_lines() + old(self).command_output(name@),
    {
        proof {
            assert(old(self).same_shape(old(self)));
        }
        if str_eq(name, "help") {
            let h = self.help();
            self.out_line(h);
            proof {
                assert(final(self).out_lines() =~= old(self).out_lines() + old(
                    self,
                ).command_output(name@));
            }
            return Ok(CommandStatus::Done);
        }
        if str_eq(name, "quit") {
            proof {
                assert(old(self).out_lines() + old(self).command_output(name@) =~= old(
                    self,
                ).out_lines());
            }
            return Ok(CommandStatus::Quit);
        }
        let ghost args_dv = args.deep_view();
        // Locate the entry registered under this name.
        let n_e = self.entries.len();
        let mut idx: usize = 0;
        loop
            invariant_except_break
                0 <= idx <= n_e,
                n_e == self.entries@.len(),
                self == old(self),
                old(self).has_name(name@),
                forall|j: int| 0 <= j < idx ==> (#[trigger] self.entries@[j]).name@ != name@,
            ensures
                self == old(self),
                idx < n_e,
                n_e == self.entries@.len(),
                self.entries@[idx as int].name@ == name@,
                forall|j: int| 0 <= j < idx ==> (#[trigger] self.entries@[j]).name@ != name@,
            decreases n_e - idx,
        {
            if idx == n_e {
                proof {
                    assert(forall|j: int|
                        0 <= j < self.reg_model().len() ==> (#[trigger] self.reg_model()[j]).0
                            == self.entries@[j].name@);
                    lemma_reg_find_bounds(self.reg_model(), name@);
                    assert(false);
                }
                break;
            }
            if str_eq(self.entries[idx].name.as_str(), name) {
                break;
            }
            idx = idx + 1;
        }
        proof {
            assert(forall|j: int|
                0 <= j < self.reg_model().len() ==> (#[trigger] self.reg_model()[j]).0
                    == self.entries@[j].name@);
            lemma_reg_find_at(self.reg_model(), name@, idx as int);
        }
        let ghost entries0 = self.entries@;
        let mut entry = self.entries.remove(idx);
        let ghost cmds0 = entry.commands@;
        let ghost ename = entry.name;
        proof {
            assert(cmds0 == old(self).variants_of(name@));
            assert(cmds0.len() >= 1);
        }
        let n = entry.commands.len();
        let mut i: usize = 0;
        let mut last: Option<HandlerError> = None;
        let mut res: Result<CommandStatus, HandlerError> = Ok(CommandStatus::Done);
        proof {
            assert(cmds0.skip(0) =~= cmds0);
        }
        loop
            invariant_except_break
                0 <= i <= n,
                1 <= n == entry.commands@.len(),
                cmds0.len() == n,
                args_dv == args.deep_view(),
                entry.name == ename,
                forall|k: int| i <= k < n ==> (#[trigger] entry.commands@[k]) == cmds0[k],
                forall|k: int|
                    0 <= k < i ==> cmd_same_shape(cmds0[k], #[trigger] entry.commands@[k]),
                forall|k: int|
                    0 <= k < i ==> (#[trigger] cmds0[k].handler.result_model(args_dv)) matches Err(
                        HandlerErrorV::Args(_),
                    ),
                i < n ==> dispatch_outcome(cmds0, args_dv) == dispatch_outcome(
                    cmds0.skip(i as int),
                    args_dv,
                ),
                match last {
                    Some(e) => 0 < i && Err::<CommandStatus, HandlerErrorV>(e@) == cmds0[i
                        - 1].handler.result_model(args_dv),
                    None => i == 0,
                },
            ensures
                n == entry.commands@.len(),
                entry.name == ename,
                forall|k: int|
                    0 <= k < n ==> cmd_same_shape(cmds0[k], #[trigger] entry.commands@[k]),
                result_view(res) == dispatch_outcome(cmds0, args_dv),
            decreases n - i,
        {
            if i == n {
                // Every variant rejected the arguments: the last rejection
                // is the outcome.
                proof {
                    lemma_dispatch_all_rejected(cmds0, args_dv);
                    assert(forall|k: int|
                        0 <= k < n ==> cmd_same_shape(cmds0[k], #[trigger] entry.commands@[k]));
                }
                match last {
                    Some(e) => {
                        res = Err(e);
                    },
                    None => {
                        proof {
                            assert(false);
                        }
                    },
                }
                break;
            }
            let mut cmd = entry.commands.remove(i);
            proof {
                assert(cmd == cmds0[i as int]);
            }
            let r = cmd.execute(args);
            let ghost cmds_mid = entry.commands@;
            entry.commands.insert(i, cmd);
            proof {
                assert(entry.commands@ =~= cmds_mid.insert(i as int, cmd));
                assert(forall|k: int|
                    i < k < n ==> (#[trigger] entry.commands@[k]) == cmds0[k]);
                assert(cmd_same_shape(cmds0[i as int], entry.commands@[i as int]));
            }
            match r {
                Err(HandlerError::Args(e)) => {
                    proof {
                        assert(result_view(Err::<CommandStatus, HandlerError>(
                            HandlerError::Args(e),
                        )) == cmds0[i as int].handler.result_model(args_dv));
                        if i + 1 < n {
                            assert(cmds0.skip(i as int)[0] == cmds0[i as int]);
                            assert(cmds0.skip(i as int).drop_first() =~= cmds0.skip(i as int + 1));
                            assert(dispatch_outcome(cmds0.skip(i as int), args_dv)
                                == dispatch_outcome(cmds0.skip(i as int + 1), args_dv));
                        }
                    }
                    last = Some(HandlerError::Args(e));
                    i = i + 1;
                },
                other => {
                    proof {
                        assert(cmds0.skip(i as int)[0] == cmds0[i as int]);
                        assert(result_view(other) == cmds0[i as int].handler.result_model(
                            args_dv,
                        ));
                        if i + 1 < n {
                            assert(cmds0.skip(i as int).drop_first() =~= cmds0.skip(i as int + 1));
                        }
                        assert(dispatch_outcome(cmds0.skip(i as int), args_dv) == result_view(
                            other,
                        ));
                        assert(forall|k: int|
                            0 <= k < n ==> cmd_same_shape(
                                cmds0[k],
                                #[trigger] entry.commands@[k],
                            ));
                    }
                    res = other;
                    break;
                },
            }
        }
        self.entries.insert(idx, entry);
        proof {
            assert(self.entries@.len() == entries0.len());
            assert forall|j: int| 0 <= j < entries0.len() implies (#[trigger] self.entries@[j]).name
                == entries0[j].name && self.entries@[j].commands@.len()
                == entries0[j].commands@.len() by {
                if j < idx {
                    assert(self.entries@[j] == entries0[j]);
                } else if j > idx {
                    assert(self.entries@[j] == entries0[j]);
                }
            }
            assert forall|j: int, k: int|
                #![trigger self.entries@[j].commands@[k]]
                0 <= j < entries0.len() && 0 <= k < entries0[j].commands@.len() implies
                cmd_same_shape(entries0[j].commands@[k], self.entries@[j].commands@[k]) by {
                if j < idx {
                    assert(self.entries@[j] == entries0[j]);
                } else if j > idx {
                    assert(self.entries@[j] == entries0[j]);
                }
            }
            assert(old(self).same_shape(self));
            old(self).lemma_same_shape_wf(self);
            assert(old(self).command_outcome(name@, args_dv) == dispatch_outcome(
                cmds0,
                args_dv,
            ));
            assert(final(self).out_lines() =~= old(self).out_lines() + old(self).command_output(
                name@,
            ));
        }
        res
    }
}

/// Whatever carries a prefix is one of the names it was filtered from.
proof fn lemma_prefix_filter_subset(names: Seq<Seq<char>>, p: Seq<char>, x: Seq<char>)
    requires
        prefix_filter(names, p).contains(x),
    ensures
        names.contains(x),
    decreases names.len(),
{
    if names.len() > 0 {
        let rest = prefix_filter(names.drop_first(), p);
        if p.is_prefix_of(names[0]) {
            if x != names[0] {
                let w = choose|w: int|
                    0 <= w < prefix_filter(names, p).len() && prefix_filter(names, p)[w] == x;
                assert(rest[w - 1] == x);
                lemma_prefix_filter_subset(names.drop_first(), p, x);
            }
        } else {
            lemma_prefix_filter_subset(names.drop_first(), p, x);
        }
        if names.drop_first().contains(x) {
            let v = choose|v: int|
                0 <= v < names.drop_first().len() && names.drop_first()[v] == x;
            assert(names[v + 1] == x);
        }
    }
}

/// The usage form of one variant: two spaces, the name, and each argument
/// in its `name:type` form, space-joined.
pub open spec fn usage_line_text<H>(name: Seq<char>, cmd: NewCommand<H>) -> Seq<char> {
    "  "@ + name + " "@ + join_with(
        cmd.args_info.deep_view().map_values(|i: ArgInfoV| arg_info_text(i)),
        " "@,
    )
}

impl<H: ExecuteCommand> Repl<H> {
    /// The usage forms of the variants under `name`, in registration order.
    pub closed spec fn usage_lines(&self, name: Seq<char>) -> Seq<Seq<char>> {
        self.variants_of(name).map_values(|cmd: NewCommand<H>| usage_line_text(name, cmd))
    }

    /// A name a prefix resolved to is a reserved or a registered one.
    proof fn lemma_resolution_resolved(&self, p: Seq<char>, name: Seq<char>)
        requires
            self.resolution(p) == ResolutionV::Resolved(name),
        ensures
            name == "help"@ || name == "quit"@ || self.has_name(name),
    {
        let cands = self.candidate_names(p);
        if cands.contains(p) {
            lemma_prefix_filter_subset(self.all_names(), p, p);
        } else {
            assert(cands.contains(cands[0]));
            lemma_prefix_filter_subset(self.all_names(), p, cands[0]);
        }
        let alln = self.all_names();
        assert(alln.contains(name));
        let w = choose|w: int| 0 <= w < alln.len() && alln[w] == name;
        let regn = self.reg_model().map_values(|q: (Seq<char>, Seq<NewCommand<H>>)| q.0);
        if w < regn.len() {
            assert(regn[w] == name);
            lemma_reg_find_bounds(self.reg_model(), name);
            assert(self.reg_model()[w].0 == name);
        } else {
            assert(reserved_names()[w - regn.len()] == name);
            assert(w - regn.len() == 0 || w - regn.len() == 1);
        }
    }

    /// The usage forms of the variants under `name`.
    fn usage_for(&self, name: &str) -> (r: Vec<String>)
        requires
            self.has_name(name@),
        ensures
            views_of(r@) == self.usage_lines(name@),
    {
        // Locate the entry registered under this name.
        let n_e = self.entries.len();
        let mut idx: usize = 0;
        loop
            invariant_except_break
                0 <= idx <= n_e,
                n_e == self.entries@.len(),
                self.has_name(name@),
                forall|j: int| 0 <= j < idx ==> (#[trigger] self.entries@[j]).name@ != name@,
            ensures
                idx < n_e,
                n_e == self.entries@.len(),
                self.entries@[idx as int].name@ == name@,
                forall|j: int| 0 <= j < idx ==> (#[trigger] self.entries@[j]).name@ != name@,
            decreases n_e - idx,
        {
            if idx == n_e {
                proof {
                    assert(forall|j: int|
                        0 <= j < self.reg_model().len() ==> (#[trigger] self.reg_model()[j]).0
                            == self.entries@[j].name@);
                    lemma_reg_find_bounds(self.reg_model(), name@);
                    assert(false);
                }
                break;
            }
            if str_eq(self.entries[idx].name.as_str(), name) {
                break;
            }
            idx = idx + 1;
        }
        proof {
            assert(forall|j: int|
                0 <= j < self.reg_model().len() ==> (#[trigger] self.reg_model()[j]).0
                    == self.entries@[j].name@);
            lemma_reg_find_at(self.reg_model(), name@, idx as int);
        }
        let entry = &self.entries[idx];
        let ghost ul = self.usage_lines(name@);
        let nc = entry.commands.len();
        proof {
            assert(ul.len() == nc as int);
        }
        let mut r: Vec<String> = Vec::new();
        let mut c: usize = 0;
        proof {
            assert(views_of(r@) =~= ul.take(0));
        }
        while c < nc
            invariant
                0 <= c <= nc,
                nc == entry.commands@.len(),
                idx < self.entries@.len(),
                entry == &self.entries@[idx as int],
                reg_find(self.reg_model(), name@) == idx as int,
                ul == self.usage_lines(name@),
                ul.len() == nc as int,
                views_of(r@) == ul.take(c as int),
            decreases nc - c,
        {
            let cmd = &entry.commands[c];
            // Each argument in its name:type form.
            let ni = cmd.args_info.len();
            let mut infos: Vec<String> = Vec::new();
            let mut j: usize = 0;
            proof {
                assert(views_of(infos@) =~= cmd.args_info.deep_view().map_values(
                    |i: ArgInfoV| arg_info_text(i),
                ).take(0));
            }
            while j < ni
                invariant
                    0 <= j <= ni,
                    ni == cmd.args_info@.len(),
                    idx < self.entries@.len(),
                    c < self.entries@[idx as int].commands@.len(),
                    cmd == &self.entries@[idx as int].commands@[c as int],
                    views_of(infos@) == cmd.args_info.deep_view().map_values(
                        |i: ArgInfoV| arg_info_text(i),
                    ).take(j as int),
                decreases ni - j,
            {
                let ghost pre = views_of(infos@);
                let info = cmd.args_info[j].clone();
                infos.push(info.to_string());
                proof {
                    assert(pre.len() == j as int);
                    assert(infos@[j as int]@ == arg_info_text(cmd.args_info.deep_view()[j as int]));
                    assert forall|t: int| 0 <= t < j implies views_of(infos@)[t] == pre[t] by {
                        assert(infos@[t] == infos@.drop_last()[t]);
                    }
                    assert(views_of(infos@) =~= cmd.args_info.deep_view().map_values(
                        |i: ArgInfoV| arg_info_text(i),
                    ).take(j + 1));
                }
                j = j + 1;
            }
            proof {
                assert(cmd.args_info.deep_view().map_values(|i: ArgInfoV| arg_info_text(i)).take(
                    ni as int,
                ) =~= cmd.args_info.deep_view().map_values(|i: ArgInfoV| arg_info_text(i)));
            }
            let joined = join_strings(&infos, " ");
            let mut line = "  ".to_owned();
            line.append(name);
            line.append(" ");
            line.append(joined.as_str());
            proof {
                assert(self.variants_of(name@)[c as int] == entry.commands@[c as int]);
                assert(line@ == usage_line_text(name@, entry.commands@[c as int]));
                assert(ul[c as int] == usage_line_text(name@, entry.commands@[c as int]));
            }
            let ghost pre = views_of(r@);
            r.push(line);
            proof {
                assert(pre.len() == c as int);
                assert(views_of(r@)[c as int] == ul[c as int]);
                assert forall|t: int| 0 <= t < c implies views_of(r@)[t] == pre[t] by {
                    assert(r@[t] == r@.drop_last()[t]);
                }
                assert(views_of(r@) =~= ul.take(c + 1));
            }
            c = c + 1;
        }
        proof {
            assert(ul.take(nc as int) =~= ul);
        }
        r
    }

    /// The outcome of one full input line: tokenize, resolve the first word,
    /// dispatch the rest; a critical failure is the only error.
    pub closed spec fn line_outcome(&self, line: Seq<char>) -> Result<LoopStatus, Seq<char>> {
        match shell_split(line) {
            None => Ok(LoopStatus::Continue),
            Some(ws) => {
                if ws.len() == 0 {
                    Ok(LoopStatus::Continue)
                } else {
                    match self.resolution(ws[0]) {
                        ResolutionV::NotFound { .. } => Ok(LoopStatus::Continue),
                        ResolutionV::Resolved(name) => {
                            match self.command_outcome(name, ws.drop_first()) {
                                Ok(CommandStatus::Done) => Ok(LoopStatus::Continue),
                                Ok(CommandStatus::Quit) => Ok(LoopStatus::Break),
                                Err(HandlerErrorV::Critical(m)) => Err(m),
                                Err(_) => Ok(LoopStatus::Continue),
                            }
                        },
                    }
                }
            },
        }
    }

    /// What one full input line writes: the tokenizer's error; a
    /// resolution failure with its candidates, when they are to be listed;
    /// the help text; or a recoverable failure's message, with the usage of
    /// every variant after an argument rejection. A critical failure writes
    /// nothing.
    pub closed spec fn line_output(&self, line: Seq<char>) -> Seq<Seq<char>> {
        match shell_split(line) {
            None => seq!["Error: missing closing quote"@],
            Some(ws) => {
                if ws.len() == 0 {
                    Seq::empty()
                } else {
                    match self.resolution(ws[0]) {
                        ResolutionV::NotFound { candidates, listed } => {
                            seq!["Command not found: "@ + ws[0]] + (if listed {
                                seq!["Candidates:\n  "@ + join_with(candidates, "\n  "@)]
                            } else {
                                Seq::empty()
                            }) + seq!["Use 'help' to see available commands."@]
                        },
                        ResolutionV::Resolved(name) => {
                            match self.command_outcome(name, ws.drop_first()) {
                                Ok(_) => self.command_output(name),
                                Err(HandlerErrorV::Critical(_)) => Seq::empty(),
                                Err(e) => seq!["Error: "@ + crate::command::handler_error_text(e)]
                                    + (match e {
                                    HandlerErrorV::Args(_) => seq!["Usage:"@] + self.usage_lines(
                                        name,
                                    ),
                                    _ => Seq::empty(),
                                }),
                            }
                        },
                    }
                }
            },
        }
    }

    /// Handles one full input line: tokenizes it, resolves the first word,
    /// hands the rest to the resolved command, and reports every
    /// recoverable failure on the output; a critical failure comes back as
    /// the error, with nothing reported.
    pub fn handle_line(&mut self, line: &str) -> (r: Result<LoopStatus, CriticalError>)
        requires
            old(self).wf(),
        ensures
            final(self).wf(),
            old(self).same_shape(final(self)),
            match r {
                Ok(st) => old(self).line_outcome(line@) == Ok::<LoopStatus, Seq<char>>(st),
                Err(c) => old(self).line_outcome(line@) == Err::<LoopStatus, Seq<char>>(c@),
            },
            final(self).out_lines() == old(self).out_lines() + old(self).line_output(line@),
    {
        proof {
            assert(old(self).same_shape(old(self)));
        }
        let ws = match split_words(line) {
            None => {
                self.out_line("Error: missing closing quote".to_owned());
                proof {
                    assert(final(self).out_lines() =~= old(self).out_lines() + old(
                        self,
                    ).line_output(line@));
                }
                return Ok(LoopStatus::Continue);
            },
            Some(ws) => ws,
        };
        if ws.is_empty() {
            proof {
                assert(old(self).out_lines() + old(self).line_output(line@) =~= old(
                    self,
                ).out_lines());
            }
            return Ok(LoopStatus::Continue);
        }
        let ghost wsv = ws.deep_view();
        proof {
            assert(wsv[0] == ws@[0]@);
        }
        let resolution = self.resolve_prefix(ws[0].as_str());
        match resolution {
            Resolution::NotFound { candidates, listed } => {
                let mut m = "Command not found: ".to_owned();
                m.append(ws[0].as_str());
                self.out_line(m);
                if listed {
                    let joined = join_strings(&candidates, "\n  ");
                    let mut cm = "Candidates:\n  ".to_owned();
                    cm.append(joined.as_str());
                    self.out_line(cm);
                }
                self.out_line("Use 'help' to see available commands.".to_owned());
                proof {
                    assert(final(self).out_lines() =~= old(self).out_lines() + old(
                        self,
                    ).line_output(line@));
                }
                Ok(LoopStatus::Continue)
            },
            Resolution::Resolved(name) => {
                proof {
                    self.lemma_resolution_resolved(wsv[0], name@);
                }
                let reserved = str_eq(name.as_str(), "help") || str_eq(name.as_str(), "quit");
                let usage: Vec<String> = if reserved {
                    Vec::new()
                } else {
                    self.usage_for(name.as_str())
                };
                // The words after the first are the arguments.
                let nw = ws.len();
                let mut tail: Vec<&str> = Vec::new();
                let mut t: usize = 1;
                proof {
                    assert(tail.deep_view() =~= wsv.drop_first().take(0));
                }
                while t < nw
                    invariant
                        1 <= t <= nw,
                        nw == ws@.len(),
                        wsv == ws.deep_view(),
                        tail.deep_view() == wsv.drop_first().take(t - 1),
                    decreases nw - t,
                {
                    let ghost pre = tail.deep_view();
                    tail.push(ws[t].as_str());
                    proof {
                        assert(pre.len() == t - 1);
                        assert(tail@[t - 1]@ == wsv.drop_first()[t - 1]);
                        assert forall|j: int| 0 <= j < t - 1 implies tail.deep_view()[j] == pre[j]
                            by {
                            assert(tail@[j] == tail@.drop_last()[j]);
                        }
                        assert(tail.deep_view() =~= wsv.drop_first().take(t as int));
                    }
                    t = t + 1;
                }
                proof {
                    assert(wsv.drop_first().take(nw - 1) =~= wsv.drop_first());
                }
                let res = self.handle_command(name.as_str(), tail.as_slice());
                match res {
                    Ok(CommandStatus::Done) => {
                        proof {
                            assert(final(self).out_lines() =~= old(self).out_lines() + old(
                                self,
                            ).line_output(line@));
                        }
                        Ok(LoopStatus::Continue)
                    },
                    Ok(CommandStatus::Quit) => {
                        proof {
                            assert(final(self).out_lines() =~= old(self).out_lines() + old(
                                self,
                            ).line_output(line@));
                        }
                        Ok(LoopStatus::Break)
                    },
                    Err(HandlerError::Critical(c)) => {
                        proof {
                            assert(final(self).out_lines() =~= old(self).out_lines() + old(
                                self,
                            ).line_output(line@));
                        }
                        Err(c)
                    },
                    Err(e) => {
                        let ghost mid = self.out_lines();
                        let ghost ev = e@;
                        let msg = e.message();
                        let mut m = "Error: ".to_owned();
                        m.append(msg.as_str());
                        self.out_line(m);
                        let is_args = match &e {
                            HandlerError::Args(_) => true,
                            _ => false,
                        };
                        if is_args {
                            proof {
                                assert(old(self).command_outcome(name@, wsv.drop_first())
                                    == Err::<CommandStatus, HandlerErrorV>(ev));
                                assert(name@ != "help"@ && name@ != "quit"@);
                            }
                            self.out_line("Usage:".to_owned());
                            let nu = usage.len();
                            let ghost before = self.out_lines();
                            let ghost uv = views_of(usage@);
                            let mut u: usize = 0;
                            proof {
                                assert(before + uv.take(0) =~= before);
                            }
                            while u < nu
                                invariant
                                    0 <= u <= nu,
                                    nu == usage@.len(),
                                    uv == views_of(usage@),
                                    self.out_lines() == before + uv.take(u as int),
                                    self.wf(),
                                    old(self).same_shape(self),
                                decreases nu - u,
                            {
                                self.out_line(usage[u].clone());
                                proof {
                                    assert(uv.take(u + 1) =~= uv.take(u as int).push(uv[u as int]));
                                    assert((before + uv.take(u as int)).push(uv[u as int]) =~= before
                                        + uv.take(u + 1));
                                }
                                u = u + 1;
                            }
                            proof {
                                assert(uv.take(nu as int) =~= uv);
                                assert(final(self).out_lines() =~= old(self).out_lines() + old(
                                    self,
                                ).line_output(line@));
                            }
                        } else {
                            proof {
                                assert(final(self).out_lines() =~= old(self).out_lines() + old(
                                    self,
                                ).line_output(line@));
                            }
                        }
                        Ok(LoopStatus::Continue)
                    },
                }
            },
        }
    }
}

/// What one read from the line editor yielded. The editor itself lives
/// outside this core; whoever drives the loop reads a line and hands the
/// result in as one of these.
#[derive(Debug)]
pub enum ReadEvent {
    /// A full line of input.
    Line(String),
    /// The interrupt key: the loop stops after a notice.
    Interrupted,
    /// End of input: the loop stops silently.
    Eof,
    /// Any other editor failure, already formatted: it is reported and the
    /// loop goes on.
    Failed(String),
}

impl<H: ExecuteCommand> Repl<H> {
    /// The outcome of one loop step for the given read event.
    pub closed spec fn event_outcome(&self, ev: ReadEvent) -> Result<LoopStatus, Seq<char>> {
        match ev {
            ReadEvent::Line(l) => if blank_text(l@) {
                Ok(LoopStatus::Continue)
            } else {
                self.line_outcome(l@)
            },
            ReadEvent::Interrupted => Ok(LoopStatus::Break),
            ReadEvent::Eof => Ok(LoopStatus::Break),
            ReadEvent::Failed(_) => Ok(LoopStatus::Continue),
        }
    }

    /// What one loop step writes for the given read event.
    pub closed spec fn event_output(&self, ev: ReadEvent) -> Seq<Seq<char>> {
        match ev {
            ReadEvent::Line(l) => if blank_text(l@) {
                Seq::empty()
            } else {
                self.line_output(l@)
            },
            ReadEvent::Interrupted => seq!["CTRL-C"@],
            ReadEvent::Eof => Seq::empty(),
            ReadEvent::Failed(m) => seq!["Error: "@ + m@],
        }
    }

    /// One loop step: a blank line does nothing; a full line is handled; an
    /// interrupt stops the loop after a notice, end of input silently; any
    /// other editor failure is reported and the loop goes on. Only a
    /// critical failure of a handler comes back as an error.
    pub fn step(&mut self, event: ReadEvent) -> (r: Result<LoopStatus, CriticalError>)
        requires
            old(self).wf(),
        ensures
            final(self).wf(),
            old(self).same_shape(final(self)),
            match r {
                Ok(st) => old(self).event_outcome(event) == Ok::<LoopStatus, Seq<char>>(st),
                Err(c) => old(self).event_outcome(event) == Err::<LoopStatus, Seq<char>>(c@),
            },
            final(self).out_lines() == old(self).out_lines() + old(self).event_output(event),
    {
        proof {
            assert(old(self).same_shape(old(self)));
        }
        match event {
            ReadEvent::Line(l) => {
                if str_is_blank(l.as_str()) {
                    proof {
                        assert(old(self).out_lines() + old(self).event_output(
                            ReadEvent::Line(l),
                        ) =~= old(self).out_lines());
                    }
                    Ok(LoopStatus::Continue)
                } else {
                    self.handle_line(l.as_str())
                }
            },
            ReadEvent::Interrupted => {
                self.out_line("CTRL-C".to_owned());
                proof {
                    assert(final(self).out_lines() =~= old(self).out_lines() + old(
                        self,
                    ).event_output(ReadEvent::Interrupted));
                }
                Ok(LoopStatus::Break)
            },
            ReadEvent::Eof => {
                proof {
                    assert(old(self).out_lines() + old(self).event_output(ReadEvent::Eof) =~= old(
                        self,
                    ).out_lines());
                }
                Ok(LoopStatus::Break)
            },
            ReadEvent::Failed(m) => {
                let ghost mv = m@;
                let mut s = "Error: ".to_owned();
                s.append(m.as_str());
                self.out_line(s);
                proof {
                    assert(final(self).out_lines() =~= old(self).out_lines() + old(
                        self,
                    ).event_output(ReadEvent::Failed(m)));
                }
                Ok(LoopStatus::Continue)
            },
        }
    }

    /// Whether `self` and `other` agree in everything but the pending
    /// output: the registry with its handlers' state, and every setting.
    pub closed spec fn same_but_output(&self, other: &Repl<H>) -> bool {
        &&& self.entries == other.entries
        &&& self.description == other.description
        &&& self.prompt == other.prompt
        &&& self.text_width == other.text_width
        &&& self.predict_commands == other.predict_commands
        &&& self.with_hints == other.with_hints
        &&& self.with_completion == other.with_completion
        &&& self.with_filename_completion == other.with_filename_completion
    }

    /// Hands out the pending output lines, leaving none behind. Whoever
    /// drives the loop writes them to its sink after each step.
    pub fn take_output(&mut self) -> (r: Vec<String>)
        ensures
            views_of(r@) == old(self).out_lines(),
            final(self).out_lines() == Seq::<Seq<char>>::empty(),
            old(self).same_but_output(final(self)),
            final(self).wf() == old(self).wf(),
            old(self).same_shape(final(self)),
    {
        proof {
            assert(old(self).same_shape(old(self)));
        }
        let mut taken: Vec<String> = Vec::new();
        core::mem::swap(&mut taken, &mut self.out);
        proof {
            assert(final(self).out_lines() =~= Seq::<Seq<char>>::empty());
        }
        taken
    }
}

/// Dispatch tries the variants in registration order: where every variant
/// before `i` rejects the arguments as arguments and variant `i` does not,
/// variant `i`'s outcome is the dispatch outcome.
pub proof fn lemma_dispatch_first_accepting<H: ExecuteCommand>(
    cmds: Seq<NewCommand<H>>,
    args: Seq<Seq<char>>,
    i: int,
)
    requires
        0 <= i < cmds.len(),
        forall|k: int|
            0 <= k < i ==> (#[trigger] cmds[k].handler.result_model(args)) matches Err(
                HandlerErrorV::Args(_),
            ),
        !((cmds[i].handler.result_model(args)) matches Err(HandlerErrorV::Args(_))),
    ensures
        dispatch_outcome(cmds, args) == cmds[i].handler.result_model(args),
    decreases i,
{
    if i > 0 {
        assert(forall|k: int|
            0 <= k < cmds.drop_first().len() ==> (#[trigger] cmds.drop_first()[k]) == cmds[k + 1]);
        lemma_dispatch_first_accepting(cmds.drop_first(), args, i - 1);
    }
}

/// Of two variants under one name with distinct signatures, dispatch picks
/// the first whose declared argument count and types accept the arguments —
/// provided each variant's handler rejects as an argument error exactly the
/// argument lists its declared signature rejects.
pub proof fn lemma_dispatch_first_matching_signature<H: ExecuteCommand>(
    cmds: Seq<NewCommand<H>>,
    args: Seq<Seq<char>>,
    i: int,
)
    requires
        0 <= i < cmds.len(),
        forall|k: int|
            0 <= k < cmds.len() ==> (((#[trigger] cmds[k].handler.result_model(args)) matches Err(
                HandlerErrorV::Args(_),
            )) <==> crate::command::validate_args(args, cmds[k].args_info.deep_view()) is Err),
        crate::command::validate_args(args, cmds[i].args_info.deep_view()) is Ok,
        forall|k: int|
            0 <= k < i ==> #[trigger] crate::command::validate_args(
                args,
                cmds[k].args_info.deep_view(),
            ) is Err,
    ensures
        dispatch_outcome(cmds, args) == cmds[i].handler.result_model(args),
{
    lemma_dispatch_first_accepting(cmds, args, i);
}

/// Where two registries carry the same names in the same order, a name is
/// found at the same position in both.
proof fn lemma_reg_find_names<H>(a: RegModel<H>, b: RegModel<H>, name: Seq<char>)
    requires
        a.len() == b.len(),
        forall|k: int| 0 <= k < a.len() ==> (#[trigger] a[k]).0 == b[k].0,
    ensures
        reg_find(a, name) == reg_find(b, name),
    decreases a.len(),
{
    if a.len() > 0 && a[0].0 != name {
        assert(forall|k: int|
            0 <= k < a.drop_first().len() ==> (#[trigger] a.drop_first()[k]) == a[k + 1]
                && b.drop_first()[k] == b[k + 1]);
        lemma_reg_find_names(a.drop_first(), b.drop_first(), name);
    }
}

/// The variants a registry holds under `name`; none when it is absent.
pub open spec fn cmds_of<H>(reg: RegModel<H>, name: Seq<char>) -> Seq<NewCommand<H>> {
    if reg_find(reg, name) >= 0 {
        reg[reg_find(reg, name)].1
    } else {
        Seq::empty()
    }
}

/// The variants the given registrations register under `name`, in order.
pub open spec fn pairs_under<H>(pairs: Seq<(String, NewCommand<H>)>, name: Seq<char>) -> Seq<
    NewCommand<H>,
>
    decreases pairs.len(),
{
    if pairs.len() == 0 {
        Seq::empty()
    } else {
        (if pairs[0].0@ == name {
            seq![pairs[0].1]
        } else {
            Seq::empty()
        }) + pairs_under(pairs.drop_first(), name)
    }
}

/// A successful build puts under each name exactly what the registrations
/// put there, after whatever the starting registry already held.
proof fn lemma_build_steps_under<H>(
    acc: RegModel<H>,
    pairs: Seq<(String, NewCommand<H>)>,
    name: Seq<char>,
)
    requires
        build_steps(acc, pairs) is Ok,
    ensures
        cmds_of(build_steps(acc, pairs)->Ok_0, name) == cmds_of(acc, name) + pairs_under(
            pairs,
            name,
        ),
    decreases pairs.len(),
{
    if pairs.len() == 0 {
        assert(cmds_of(acc, name) + pairs_under(pairs, name) =~= cmds_of(acc, name));
    } else {
        let p0 = pairs[0];
        let nm = p0.0@;
        let acc2 = reg_add(acc, nm, p0.1)->Ok_0;
        lemma_build_steps_under(acc2, pairs.drop_first(), name);
        let i = reg_find(acc, nm);
        lemma_reg_find_bounds(acc, nm);
        if i >= 0 {
            assert(acc2 == acc.update(i, (nm, acc[i].1.push(p0.1))));
            assert(forall|k: int| 0 <= k < acc.len() ==> (#[trigger] acc[k]).0 == acc2[k].0);
            lemma_reg_find_names(acc, acc2, name);
            if name == nm {
                assert(cmds_of(acc2, name) == acc[i].1.push(p0.1));
                assert(cmds_of(acc, name).push(p0.1) + pairs_under(pairs.drop_first(), name)
                    =~= cmds_of(acc, name) + (seq![p0.1] + pairs_under(pairs.drop_first(), name)));
            } else {
                let f = reg_find(acc, name);
                lemma_reg_find_bounds(acc, name);
                if f >= 0 {
                    assert(acc[f].0 == name);
                    assert(f != i);
                    assert(acc2[f] == acc[f]);
                }
                assert(cmds_of(acc2, name) == cmds_of(acc, name));
                assert(cmds_of(acc, name) + (Seq::<NewCommand<H>>::empty() + pairs_under(
                    pairs.drop_first(),
                    name,
                )) =~= cmds_of(acc, name) + pairs_under(pairs.drop_first(), name));
            }
        } else {
            assert(acc2 == acc.push((nm, seq![p0.1])));
            assert(forall|k: int|
                0 <= k < acc.len() ==> (#[trigger] acc2[k]) == acc[k]);
            if name == nm {
                assert(forall|j: int| 0 <= j < acc.len() ==> (#[trigger] acc[j]).0 != name);
                assert(forall|j: int|
                    0 <= j < acc.len() ==> (#[trigger] acc2[j]).0 != name);
                assert(acc2[acc.len() as int].0 == name);
                lemma_reg_find_at(acc2, name, acc.len() as int);
                assert(cmds_of(acc2, name) == seq![p0.1]);
                assert(cmds_of(acc, name) =~= Seq::<NewCommand<H>>::empty());
                assert(cmds_of(acc, name) + (seq![p0.1] + pairs_under(pairs.drop_first(), name))
                    =~= seq![p0.1] + pairs_under(pairs.drop_first(), name));
            } else {
                let f = reg_find(acc, name);
                lemma_reg_find_bounds(acc, name);
                if f >= 0 {
                    assert(acc2[f] == acc[f]);
                    assert(forall|j: int| 0 <= j < f ==> (#[trigger] acc2[j]).0 != name);
                    lemma_reg_find_at(acc2, name, f);
                    assert(cmds_of(acc2, name) == cmds_of(acc, name));
                } else {
                    lemma_reg_find_bounds(acc2, name);
                    if reg_find(acc2, name) >= 0 {
                        let g = reg_find(acc2, name);
                        assert(acc2[g].0 == name);
                        if g < acc.len() {
                            assert(acc[g].0 == name);
                            assert(false);
                        } else {
                            assert(acc2[g].0 == nm);
                            assert(false);
                        }
                    }
                    assert(cmds_of(acc2, name) == cmds_of(acc, name));
                }
                assert(cmds_of(acc, name) + (Seq::<NewCommand<H>>::empty() + pairs_under(
                    pairs.drop_first(),
                    name,
                )) =~= cmds_of(acc, name) + pairs_under(pairs.drop_first(), name));
            }
        }
    }
}

/// Round trip: a registry that builds holds, under each name, exactly the
/// variants registered under it, in registration order — so each name's
/// variant count equals the count passed in.
pub proof fn lemma_build_roundtrip<H>(pairs: Seq<(String, NewCommand<H>)>, name: Seq<char>)
    requires
        build_reg(pairs) is Ok,
    ensures
        cmds_of(build_reg(pairs)->Ok_0, name) == pairs_under(pairs, name),
{
    lemma_build_steps_under(Seq::empty(), pairs, name);
    assert(cmds_of(Seq::<(Seq<char>, Seq<NewCommand<H>>)>::empty(), name) + pairs_under(
        pairs,
        name,
    ) =~= pairs_under(pairs, name));
}

/// A registry built from well-formed contents is well formed.
proof fn lemma_build_steps_wf_ok<H>(acc: RegModel<H>, pairs: Seq<(String, NewCommand<H>)>)
    requires
        reg_wf(acc),
        build_steps(acc, pairs) is Ok,
    ensures
        reg_wf(build_steps(acc, pairs)->Ok_0),
    decreases pairs.len(),
{
    if pairs.len() > 0 {
        let acc2 = reg_add(acc, pairs[0].0@, pairs[0].1)->Ok_0;
        lemma_reg_add_wf(acc, pairs[0].0@, pairs[0].1);
        lemma_build_steps_wf_ok(acc2, pairs.drop_first());
    }
}

/// A registration under `name` appears among what the registrations put
/// under `name`.
proof fn lemma_pairs_under_mem<H>(pairs: Seq<(String, NewCommand<H>)>, name: Seq<char>, j: int)
    requires
        0 <= j < pairs.len(),
        pairs[j].0@ == name,
    ensures
        exists|b: int|
            0 <= b < pairs_under(pairs, name).len() && #[trigger] pairs_under(pairs, name)[b]
                == pairs[j].1,
    decreases j,
{
    let under = pairs_under(pairs, name);
    if j == 0 {
        assert(under[0] == pairs[0].1);
    } else {
        lemma_pairs_under_mem(pairs.drop_first(), name, j - 1);
        let b = choose|b: int|
            0 <= b < pairs_under(pairs.drop_first(), name).len() && #[trigger] pairs_under(
                pairs.drop_first(),
                name,
            )[b] == pairs.drop_first()[j - 1].1;
        let h: int = if pairs[0].0@ == name {
            1
        } else {
            0
        };
        assert(under[b + h] == pairs[j].1);
    }
}

/// Two registrations under one name appear under it in order.
proof fn lemma_pairs_under_pair<H>(
    pairs: Seq<(String, NewCommand<H>)>,
    name: Seq<char>,
    i: int,
    j: int,
)
    requires
        0 <= i < j < pairs.len(),
        pairs[i].0@ == name,
        pairs[j].0@ == name,
    ensures
        exists|a: int, b: int|
            0 <= a < b < pairs_under(pairs, name).len() && #[trigger] pairs_under(pairs, name)[a]
                == pairs[i].1 && #[trigger] pairs_under(pairs, name)[b] == pairs[j].1,
    decreases i,
{
    let under = pairs_under(pairs, name);
    if i == 0 {
        lemma_pairs_under_mem(pairs.drop_first(), name, j - 1);
        let b = choose|b: int|
            0 <= b < pairs_under(pairs.drop_first(), name).len() && #[trigger] pairs_under(
                pairs.drop_first(),
                name,
            )[b] == pairs.drop_first()[j - 1].1;
        assert(under[0] == pairs[0].1);
        assert(under[b + 1] == pairs[j].1);
    } else {
        lemma_pairs_under_pair(pairs.drop_first(), name, i - 1, j - 1);
        let (a, b) = choose|a: int, b: int|
            0 <= a < b < pairs_under(pairs.drop_first(), name).len() && #[trigger] pairs_under(
                pairs.drop_first(),
                name,
            )[a] == pairs.drop_first()[i - 1].1 && #[trigger] pairs_under(
                pairs.drop_first(),
                name,
            )[b] == pairs.drop_first()[j - 1].1;
        let h: int = if pairs[0].0@ == name {
            1
        } else {
            0
        };
        assert(under[a + h] == pairs[i].1);
        assert(under[b + h] == pairs[j].1);
    }
}

/// A registry never builds from two variants that share a name and an
/// identical type signature: whatever builds has every two variants under
/// one name differ in signature, so registering such a pair always fails.
pub proof fn lemma_build_rejects_duplicate_signatures<H>(
    pairs: Seq<(String, NewCommand<H>)>,
    i: int,
    j: int,
)
    requires
        build_reg(pairs) is Ok,
        0 <= i < j < pairs.len(),
        pairs[i].0@ == pairs[j].0@,
    ensures
        sig_of(pairs[i].1.args_info.deep_view()) != sig_of(pairs[j].1.args_info.deep_view()),
{
    let name = pairs[i].0@;
    let reg = build_reg(pairs)->Ok_0;
    lemma_build_roundtrip(pairs, name);
    lemma_pairs_under_pair(pairs, name, i, j);
    let (a, b) = choose|a: int, b: int|
        0 <= a < b < pairs_under(pairs, name).len() && #[trigger] pairs_under(pairs, name)[a]
            == pairs[i].1 && #[trigger] pairs_under(pairs, name)[b] == pairs[j].1;
    assert(reg_wf(reg)) by {
        lemma_build_steps_wf_ok(Seq::empty(), pairs);
    }
    let f = reg_find(reg, name);
    lemma_reg_find_bounds(reg, name);
    assert(cmds_of(reg, name).len() >= 2);
    assert(f >= 0);
    assert(reg[f].1[a] == pairs[i].1);
    assert(reg[f].1[b] == pairs[j].1);
}

/// Two variants sharing a name and an identical signature always fail the
/// build with the duplicate-signature error, whatever else they hold: the
/// later of the two is the first registration to fail, and it decides.
pub proof fn lemma_duplicate_signature_rejected<H>(
    pairs: Seq<(String, NewCommand<H>)>,
    i: int,
    j: int,
)
    requires
        0 <= i < j < pairs.len(),
        pairs[i].0@ == pairs[j].0@,
        sig_of(pairs[i].1.args_info.deep_view()) == sig_of(pairs[j].1.args_info.deep_view()),
        build_reg(pairs.take(j)) is Ok,
    ensures
        build_reg(pairs) == Err::<RegModel<H>, BuilderErrorV>(
            BuilderErrorV::DuplicateCommands(pairs[j].0@),
        ),
{
    let name = pairs[j].0@;
    let head = pairs.take(j);
    let m = build_reg(head)->Ok_0;
    assert(pairs =~= head + pairs.skip(j));
    lemma_build_steps_append(Seq::empty(), head, pairs.skip(j));
    lemma_build_roundtrip(head, name);
    assert(head[i] == pairs[i]);
    lemma_pairs_under_mem(head, name, i);
    let b = choose|b: int|
        0 <= b < pairs_under(head, name).len() && #[trigger] pairs_under(head, name)[b]
            == head[i].1;
    assert(reg_wf(m)) by {
        lemma_build_steps_wf_ok(Seq::empty(), head);
    }
    let f = reg_find(m, name);
    lemma_reg_find_bounds(m, name);
    assert(cmds_of(m, name).len() >= 1);
    assert(f >= 0);
    assert(m[f].0 == name);
    assert(valid_name(name));
    assert(!reserved_names().contains(name));
    assert(m[f].1[b] == pairs[i].1);
    assert(reg_add(m, name, pairs[j].1) == Err::<RegModel<H>, BuilderErrorV>(
        BuilderErrorV::DuplicateCommands(name),
    ));
    assert(pairs.skip(j)[0] == pairs[j]);
    assert(build_steps(m, pairs.skip(j)) == Err::<RegModel<H>, BuilderErrorV>(
        BuilderErrorV::DuplicateCommands(name),
    ));
}

/// Building runs through a prefix of the registrations first: the whole
/// build is the build of the prefix carried on with the rest.
proof fn lemma_build_steps_append<H>(
    acc: RegModel<H>,
    a: Seq<(String, NewCommand<H>)>,
    b: Seq<(String, NewCommand<H>)>,
)
    ensures
        build_steps(acc, a + b) == match build_steps(acc, a) {
            Err(e) => Err::<RegModel<H>, BuilderErrorV>(e),
            Ok(m) => build_steps(m, b),
        },
    decreases a.len(),
{
    if a.len() == 0 {
        assert(a + b =~= b);
    } else {
        assert((a + b)[0] == a[0]);
        assert((a + b).drop_first() =~= a.drop_first() + b);
        match reg_add(acc, a[0].0@, a[0].1) {
            Err(_) => {
                assert((a + b).len() > 0);
            },
            Ok(m) => {
                lemma_build_steps_append(m, a.drop_first(), b);
            },
        }
    }
}

/// Registering a reserved name never builds, whatever the variant holds;
/// where the registrations before it all pass, the build fails with the
/// reserved-name error for that very name.
pub proof fn lemma_reserved_name_rejected<H>(pairs: Seq<(String, NewCommand<H>)>, i: int)
    requires
        0 <= i < pairs.len(),
        reserved_names().contains(pairs[i].0@),
    ensures
        build_reg(pairs) is Err,
        build_reg(pairs.take(i)) is Ok ==> build_reg(pairs) == Err::<RegModel<H>, BuilderErrorV>(
            BuilderErrorV::ReservedName(pairs[i].0@),
        ),
{
    assert(pairs =~= pairs.take(i) + pairs.skip(i));
    lemma_build_steps_append(Seq::empty(), pairs.take(i), pairs.skip(i));
    match build_reg(pairs.take(i)) {
        Err(_) => {},
        Ok(m) => {
            assert(pairs.skip(i)[0] == pairs[i]);
            assert(reg_add(m, pairs[i].0@, pairs[i].1) == Err::<RegModel<H>, BuilderErrorV>(
                BuilderErrorV::ReservedName(pairs[i].0@),
            ));
            assert(build_steps(m, pairs.skip(i)) == Err::<RegModel<H>, BuilderErrorV>(
                BuilderErrorV::ReservedName(pairs[i].0@),
            ));
        },
    }
}

/// When `x` is among the names and begins with `p`, filtering by `p` keeps
/// it.
proof fn lemma_prefix_filter_mem(names: Seq<Seq<char>>, p: Seq<char>, x: Seq<char>)
    requires
        names.contains(x),
        p.is_prefix_of(x),
    ensures
        prefix_filter(names, p).contains(x),
    decreases names.len(),
{
    if names.len() > 0 {
        if names[0] == x {
            assert(prefix_filter(names, p)[0] == x);
        } else {
            let w = choose|w: int| 0 <= w < names.len() && names[w] == x;
            assert(names.drop_first()[w - 1] == x);
            lemma_prefix_filter_mem(names.drop_first(), p, x);
            let v = choose|v: int|
                0 <= v < prefix_filter(names.drop_first(), p).len() && prefix_filter(
                    names.drop_first(),
                    p,
                )[v] == x;
            if p.is_prefix_of(names[0]) {
                assert(prefix_filter(names, p)[v + 1] == x);
            }
        }
    }
}

impl<H: ExecuteCommand> Repl<H> {
    /// An exact name always resolves to itself, even when it is also a
    /// prefix of other, longer names, and whether or not prediction is on.
    pub proof fn lemma_exact_match_wins(&self, p: Seq<char>)
        requires
            self.all_names().contains(p),
        ensures
            self.resolution(p) == ResolutionV::Resolved(p),
    {
        assert(p.is_prefix_of(p)) by {
            assert(p =~= p.subrange(0, p.len() as int));
        }
        lemma_prefix_filter_mem(self.all_names(), p, p);
    }

    /// With prediction on, an inexact prefix that exactly one name begins
    /// with resolves to that name.
    pub proof fn lemma_unique_prefix_predicts(&self, p: Seq<char>)
        requires
            !self.candidate_names(p).contains(p),
            self.candidate_names(p).len() == 1,
            self.predicts(),
        ensures
            self.resolution(p) == ResolutionV::Resolved(self.candidate_names(p)[0]),
    {
    }

    /// With prediction off, an inexact prefix never resolves, however few
    /// names begin with it; its one candidate is listed.
    pub proof fn lemma_unique_prefix_without_prediction(&self, p: Seq<char>)
        requires
            !self.candidate_names(p).contains(p),
            self.candidate_names(p).len() == 1,
            !self.predicts(),
        ensures
            self.resolution(p) == (ResolutionV::NotFound {
                candidates: sort_lex(self.candidate_names(p)),
                listed: true,
            }),
    {
    }

    /// An inexact prefix that several names begin with is ambiguous,
    /// whether or not prediction is on: it never resolves, and every
    /// candidate is listed, in lexicographic order.
    pub proof fn lemma_ambiguous_prefix(&self, p: Seq<char>)
        requires
            !self.candidate_names(p).contains(p),
            self.candidate_names(p).len() > 1,
        ensures
            self.resolution(p) == (ResolutionV::NotFound {
                candidates: sort_lex(self.candidate_names(p)),
                listed: true,
            }),
    {
    }

    /// The reserved quit command always stops the loop without reaching any
    /// registered handler: a line whose first word is exactly `quit`
    /// resolves to the built-in, the loop breaks, and nothing is written.
    pub proof fn lemma_quit_breaks(&self, line: Seq<char>, ws: Seq<Seq<char>>)
        requires
            shell_split(line) == Some(ws),
            ws.len() > 0,
            ws[0] == "quit"@,
        ensures
            self.line_outcome(line) == Ok::<LoopStatus, Seq<char>>(LoopStatus::Break),
            self.line_output(line) == Seq::<Seq<char>>::empty(),
    {
        let alln = self.all_names();
        assert(alln.contains("quit"@)) by {
            assert(alln[alln.len() - 1] == "quit"@);
        }
        self.lemma_exact_match_wins("quit"@);
        assert(self.command_outcome("quit"@, ws.drop_first()) == Ok::<
            CommandStatus,
            HandlerErrorV,
        >(CommandStatus::Quit)) by {
            assert("quit"@ != "help"@) by {
                reveal_strlit("quit");
                reveal_strlit("help");
                assert("quit"@[0] == 'q');
                assert("help"@[0] == 'h');
            }
        }
    }

    /// A critical failure passes out of the line handler as it is, and
    /// nothing is reported for it: whoever runs the loop sees the failure
    /// itself, and no recovery message is written.
    pub proof fn lemma_critical_propagates(
        &self,
        line: Seq<char>,
        ws: Seq<Seq<char>>,
        name: Seq<char>,
        m: Seq<char>,
    )
        requires
            shell_split(line) == Some(ws),
            ws.len() > 0,
            self.resolution(ws[0]) == ResolutionV::Resolved(name),
            self.command_outcome(name, ws.drop_first()) == Err::<CommandStatus, HandlerErrorV>(
                HandlerErrorV::Critical(m),
            ),
        ensures
            self.line_outcome(line) == Err::<LoopStatus, Seq<char>>(m),
            self.line_output(line) == Seq::<Seq<char>>::empty(),
    {
    }
}

} // verus!
