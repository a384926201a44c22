//! The run of the typesetter, one decision at a time.
//!
//! A run loads the template, reads the input, groups the dishes, renders the
//! document and writes it out. Loading, reading, rendering and writing are
//! the work of the caller; what to do next is decided here. The caller starts
//! in [`Stage::Init`], reports each piece of finished work as an [`Event`] to
//! [`advance`], and carries out the [`Action`] that comes back, until the
//! stage is [`Stage::Done`] or [`Stage::Failed`].
//!
//! Decoding the rows and grouping the dishes need no outside work, so the
//! run does not rest between reading and rendering: both happen in the step
//! that takes the rows.

use crate::decode::{collect_rows, collected, rows_of, DecodePolicy};
use crate::grouping::{group_dishes, grouped, grouped_to_categories};
use crate::helpers::HelperKind;
use crate::menu::{sections_of, Dish, MenuCategory, MenuItem, Section};
use crate::price::{char_of_digit, digit_char};
use vstd::prelude::*;
use vstd::string::StringExecFns;

verus! {

/// What a run is set up with.
#[derive(Debug, Clone, PartialEq, Eq)]
pub struct Config {
    /// Where the template of the document is loaded from.
    pub template_path: String,
    /// The helpers that the template can call.
    pub helpers: Vec<HelperKind>,
    /// How rows that fail to decode are treated.
    pub policy: DecodePolicy,
}

/// The mathematical value of a [`Config`].
pub struct Setup {
    pub template_path: Seq<char>,
    pub helpers: Seq<HelperKind>,
    pub policy: DecodePolicy,
}

impl View for Config {
    type V = Setup;

    open spec fn view(&self) -> Setup {
        Setup { template_path: self.template_path@, helpers: self.helpers@, policy: self.policy }
    }
}

impl Default for Config {
    /// The layout template of the working directory, all helpers, and the
    /// permissive policy.
    fn default() -> (config: Config)
        ensures
            config@ == (Setup {
                template_path: "./templates/layout.tex.hbs"@,
                helpers: seq![HelperKind::Trim, HelperKind::Escape, HelperKind::FormatPrice],
                policy: DecodePolicy::Permissive,
            }),
    {
        Config {
            template_path: "./templates/layout.tex.hbs".to_owned(),
            helpers: HelperKind::all(),
            policy: DecodePolicy::Permissive,
        }
    }
}

/// The kinds of error that end a run.
#[derive(Debug, Clone, Copy, PartialEq, Eq, Structural)]
pub enum ErrorKind {
    /// The command line is not as it should be.
    Configuration,
    /// The input or the template cannot be opened or read.
    Io,
    /// A row does not fit the schema of the input.
    Decode,
    /// The template cannot be rendered with the data of the menu.
    Render,
}

/// Why a run failed.
#[derive(Debug, Clone, PartialEq, Eq)]
pub enum Failure {
    /// The path of the input was not given.
    MissingArgument,
    /// The template could not be loaded.
    TemplateLoad { reason: String },
    /// The input could not be opened or read.
    InputUnreadable { reason: String },
    /// Under the strict policy, a row could not be decoded. The rows are
    /// counted from one.
    Decode { row: usize, reason: String },
    /// The document could not be rendered.
    Render { reason: String },
}

/// The mathematical value of a [`Failure`].
pub enum Fault {
    MissingArgument,
    TemplateLoad { reason: Seq<char> },
    InputUnreadable { reason: Seq<char> },
    Decode { row: nat, reason: Seq<char> },
    Render { reason: Seq<char> },
}

impl View for Failure {
    type V = Fault;

    open spec fn view(&self) -> Fault {
        match *self {
            Failure::MissingArgument => Fault::MissingArgument,
            Failure::TemplateLoad { reason } => Fault::TemplateLoad { reason: reason@ },
            Failure::InputUnreadable { reason } => Fault::InputUnreadable { reason: reason@ },
            Failure::Decode { row, reason } => Fault::Decode { row: row as nat, reason: reason@ },
            Failure::Render { reason } => Fault::Render { reason: reason@ },
        }
    }
}

/// Where a run stands.
#[derive(Debug, Clone, PartialEq, Eq)]
pub enum Stage {
    /// Nothing has happened yet.
    Init,
    /// The template is being loaded; `input` is the path of the input, which
    /// is read next.
    LoadingTemplate { input: String },
    /// The input is being read and decoded.
    ReadingInput,
    /// The document is being rendered.
    Rendering,
    /// The run has succeeded.
    Done,
    /// The run has failed.
    Failed,
}

/// The mathematical value of a [`Stage`].
pub enum Phase {
    Init,
    LoadingTemplate { input: Seq<char> },
    ReadingInput,
    Rendering,
    Done,
    Failed,
}

impl View for Stage {
    type V = Phase;

    open spec fn view(&self) -> Phase {
        match *self {
            Stage::Init => Phase::Init,
            Stage::LoadingTemplate { input } => Phase::LoadingTemplate { input: input@ },
            Stage::ReadingInput => Phase::ReadingInput,
            Stage::Rendering => Phase::Rendering,
            Stage::Done => Phase::Done,
            Stage::Failed => Phase::Failed,
        }
    }
}

/// A piece of finished outside work, reported by the caller.
#[derive(Debug, Clone, PartialEq, Eq)]
pub enum Event {
    /// The program was started with the positional arguments `args`, the
    /// name of the program not among them.
    Started { args: Vec<String> },
    /// The template was loaded and registered.
    TemplateLoaded,
    /// The template could not be loaded.
    TemplateFailed { reason: String },
    /// The input was read: one entry for each data row, the dish or the
    /// reason why the row could not be decoded.
    InputRead { rows: Vec<Result<MenuItem, String>> },
    /// The input could not be opened or read.
    InputFailed { reason: String },
    /// The document was rendered.
    Rendered { document: String },
    /// The document could not be rendered.
    RenderFailed { reason: String },
}

/// The mathematical value of an [`Event`].
pub enum Report {
    Started { args: Seq<Seq<char>> },
    TemplateLoaded,
    TemplateFailed { reason: Seq<char> },
    InputRead { rows: Seq<Result<Dish, Seq<char>>> },
    InputFailed { reason: Seq<char> },
    Rendered { document: Seq<char> },
    RenderFailed { reason: Seq<char> },
}

/// The characters of each of `texts`.
pub open spec fn texts_of(texts: Seq<String>) -> Seq<Seq<char>> {
    texts.map_values(|text: String| text@)
}

impl View for Event {
    type V = Report;

    open spec fn view(&self) -> Report {
        match *self {
            Event::Started { args } => Report::Started { args: texts_of(args@) },
            Event::TemplateLoaded => Report::TemplateLoaded,
            Event::TemplateFailed { reason } => Report::TemplateFailed { reason: reason@ },
            Event::InputRead { rows } => Report::InputRead { rows: rows_of(rows@) },
            Event::InputFailed { reason } => Report::InputFailed { reason: reason@ },
            Event::Rendered { document } => Report::Rendered { document: document@ },
            Event::RenderFailed { reason } => Report::RenderFailed { reason: reason@ },
        }
    }
}

/// What the caller is to do next.
#[derive(Debug, PartialEq, Eq)]
pub enum Action {
    /// Load the template at `path` and register it.
    LoadTemplate { path: String },
    /// Open the input at `path` and decode its rows.
    ReadInput { path: String },
    /// Render the document with `groups` as its data.
    Render { groups: Vec<MenuCategory> },
    /// Write `document` to the output and exit with success.
    Emit { document: String },
    /// Report `failure` and exit with an error.
    Abort { failure: Failure },
    /// Nothing: the event was not the one that the stage waits for.
    Ignore,
}

/// The mathematical value of an [`Action`].
pub enum Order {
    LoadTemplate { path: Seq<char> },
    ReadInput { path: Seq<char> },
    Render { groups: Seq<Section> },
    Emit { document: Seq<char> },
    Abort { failure: Fault },
    Ignore,
}

impl View for Action {
    type V = Order;

    open spec fn view(&self) -> Order {
        match *self {
            Action::LoadTemplate { path } => Order::LoadTemplate { path: path@ },
            Action::ReadInput { path } => Order::ReadInput { path: path@ },
            Action::Render { groups } => Order::Render { groups: sections_of(groups@) },
            Action::Emit { document } => Order::Emit { document: document@ },
            Action::Abort { failure } => Order::Abort { failure: failure@ },
            Action::Ignore => Order::Ignore,
        }
    }
}

/// One step of a run: the stage it leads to, and what the caller is to do.
#[derive(Debug, PartialEq, Eq)]
pub struct Step {
    pub stage: Stage,
    pub action: Action,
}

/// The mathematical value of a [`Step`].
pub struct Move {
    pub stage: Phase,
    pub action: Order,
}

impl View for Step {
    type V = Move;

    open spec fn view(&self) -> Move {
        Move { stage: self.stage@, action: self.action@ }
    }
}

/// The step that ends a run with `failure`.
pub open spec fn failing(failure: Fault) -> Move {
    Move { stage: Phase::Failed, action: Order::Abort { failure } }
}

/// The step that a run takes from `stage` when `event` is reported.
///
/// A run without the path of its input fails at once. The template is loaded
/// before the input is opened, the input is read next, and the document is
/// rendered from the groups of the dishes that the policy lets through. The
/// first failure ends the run. An event that the stage does not wait for
/// changes nothing.
pub open spec fn next(setup: Setup, stage: Phase, event: Report) -> Move {
    match (stage, event) {
        (Phase::Init, Report::Started { args }) => if args.len() == 0 {
            failing(Fault::MissingArgument)
        } else {
            Move {
                stage: Phase::LoadingTemplate { input: args[0] },
                action: Order::LoadTemplate { path: setup.template_path },
            }
        },
        (Phase::LoadingTemplate { input }, Report::TemplateLoaded) => Move {
            stage: Phase::ReadingInput,
            action: Order::ReadInput { path: input },
        },
        (Phase::LoadingTemplate { input }, Report::TemplateFailed { reason }) => failing(
            Fault::TemplateLoad { reason },
        ),
        (Phase::ReadingInput, Report::InputRead { rows }) => match collected(setup.policy, rows) {
            Ok(dishes) => Move {
                stage: Phase::Rendering,
                action: Order::Render { groups: grouped(dishes) },
            },
            Err(fault) => failing(Fault::Decode { row: fault.row, reason: fault.reason }),
        },
        (Phase::ReadingInput, Report::InputFailed { reason }) => failing(
            Fault::InputUnreadable { reason },
        ),
        (Phase::Rendering, Report::Rendered { document }) => Move {
            stage: Phase::Done,
            action: Order::Emit { document },
        },
        (Phase::Rendering, Report::RenderFailed { reason }) => failing(Fault::Render { reason }),
        _ => Move { stage, action: Order::Ignore },
    }
}

/// The exit code that goes with an action: zero for success, one for a
/// failure, and none while the run goes on.
pub open spec fn exit_code_of(action: Order) -> Option<u8> {
    match action {
        Order::Emit { .. } => Some(0u8),
        Order::Abort { .. } => Some(1u8),
        _ => None,
    }
}

/// The kind of error that a failure belongs to.
pub open spec fn kind_of(fault: Fault) -> ErrorKind {
    match fault {
        Fault::MissingArgument => ErrorKind::Configuration,
        Fault::TemplateLoad { .. } => ErrorKind::Io,
        Fault::InputUnreadable { .. } => ErrorKind::Io,
        Fault::Decode { .. } => ErrorKind::Decode,
        Fault::Render { .. } => ErrorKind::Render,
    }
}

/// The decimal numeral of `n`.
pub open spec fn numeral_of(n: nat) -> Seq<char>
    decreases n,
{
    if n < 10 {
        seq![digit_char(n as u8)]
    } else {
        numeral_of(n / 10).push(digit_char((n % 10) as u8))
    }
}

/// The message that reports a failure: the stage that failed, and why.
pub open spec fn diagnostic_of(fault: Fault) -> Seq<char> {
    match fault {
        Fault::MissingArgument => "starting: the path of the input file is missing"@,
        Fault::TemplateLoad { reason } => "loading the template: "@ + reason,
        Fault::InputUnreadable { reason } => "reading the input: "@ + reason,
        Fault::Decode { row, reason } => "reading the input: row "@ + numeral_of(row) + ": "@
            + reason,
        Fault::Render { reason } => "rendering: "@ + reason,
    }
}

/// A run that has ended takes no further step.
pub proof fn lemma_ended_runs_stay(setup: Setup, stage: Phase, event: Report)
    requires
        stage is Done || stage is Failed,
    ensures
        next(setup, stage, event) == (Move { stage, action: Order::Ignore }),
{
}

/// The input is opened only once the template has been loaded: the one step
/// that asks for the input is the one that takes the report of the loaded
/// template.
pub proof fn lemma_input_waits_for_template(setup: Setup, stage: Phase, event: Report)
    requires
        next(setup, stage, event).action is ReadInput,
    ensures
        stage is LoadingTemplate,
        event is TemplateLoaded,
{
}

/// A run ends exactly with the steps that carry an exit code: it succeeds
/// with the step that writes the document, with code zero, and fails with
/// the step that reports a failure, with another code.
pub proof fn lemma_exit_codes(setup: Setup, stage: Phase, event: Report)
    requires
        !(stage is Done || stage is Failed),
    ensures
        next(setup, stage, event).stage is Done <==> exit_code_of(next(setup, stage, event).action)
            == Some(0u8),
        next(setup, stage, event).stage is Failed <==> (exit_code_of(
            next(setup, stage, event).action,
        ) matches Some(code) && code != 0),
        next(setup, stage, event).stage is Failed <==> next(setup, stage, event).action is Abort,
{
}

/// The decimal numeral of `n`.
fn number_text(n: usize) -> (out: String)
    ensures
        out@ == numeral_of(n as nat),
    decreases n,
{
    let mut out = if n < 10 {
        String::new()
    } else {
        number_text(n / 10)
    };
    out.push(char_of_digit((n % 10) as u8));
    out
}

impl Failure {
    /// The kind of error that the failure belongs to.
    pub fn kind(&self) -> (kind: ErrorKind)
        ensures
            kind == kind_of(self@),
    {
        match self {
            Failure::MissingArgument => ErrorKind::Configuration,
            Failure::TemplateLoad { .. } => ErrorKind::Io,
            Failure::InputUnreadable { .. } => ErrorKind::Io,
            Failure::Decode { .. } => ErrorKind::Decode,
            Failure::Render { .. } => ErrorKind::Render,
        }
    }

    /// The message that reports the failure: the stage that failed, and why.
    pub fn diagnostic(&self) -> (out: String)
        ensures
            out@ == diagnostic_of(self@),
    {
        match self {
            Failure::MissingArgument => {
                "starting: the path of the input file is missing".to_owned()
            },
            Failure::TemplateLoad { reason } => {
                let mut out = "loading the template: ".to_owned();
                out.append(reason.as_str());
                out
            },
            Failure::InputUnreadable { reason } => {
                let mut out = "reading the input: ".to_owned();
                out.append(reason.as_str());
                out
            },
            Failure::Decode { row, reason } => {
                let mut out = "reading the input: row ".to_owned();
                let number = number_text(*row);
                out.append(number.as_str());
                out.append(": ");
                out.append(reason.as_str());
                out
            },
            Failure::Render { reason } => {
                let mut out = "rendering: ".to_owned();
                out.append(reason.as_str());
                out
            },
        }
    }
}

impl Action {
    /// The exit code that goes with the action: zero where the run has
    /// succeeded, one where it has failed, and none while it goes on.
    pub fn exit_code(&self) -> (code: Option<u8>)
        ensures
            code == exit_code_of(self@),
    {
        match self {
            Action::Emit { .. } => Some(0u8),
            Action::Abort { .. } => Some(1u8),
            _ => None,
        }
    }
}

/// The step that ends a run with `failure`.
fn fail(failure: Failure) -> (step: Step)
    ensures
        step@ == failing(failure@),
{
    Step { stage: Stage::Failed, action: Action::Abort { failure } }
}

/// Takes the next step of a run: from `stage`, on the report of `event`.
pub fn advance(config: &Config, stage: Stage, event: Event) -> (step: Step)
    ensures
        step@ == next(config@, stage@, event@),
{
    match stage {
        Stage::Init => match event {
            Event::Started { args } => {
                let mut args = args;
                if args.len() == 0 {
                    fail(Failure::MissingArgument)
                } else {
                    let ghost given = args@;
                    let input = args.swap_remove(0);
                    proof {
                        assert(input@ == texts_of(given)[0]);
                    }
                    Step {
                        stage: Stage::LoadingTemplate { input },
                        action: Action::LoadTemplate { path: config.template_path.clone() },
                    }
                }
            },
            _ => Step { stage: Stage::Init, action: Action::Ignore },
        },
        Stage::LoadingTemplate { input } => match event {
            Event::TemplateLoaded => Step {
                stage: Stage::ReadingInput,
                action: Action::ReadInput { path: input },
            },
            Event::TemplateFailed { reason } => fail(Failure::TemplateLoad { reason }),
            _ => Step { stage: Stage::LoadingTemplate { input }, action: Action::Ignore },
        },
        Stage::ReadingInput => match event {
            Event::InputRead { rows } => match collect_rows(config.policy, rows) {
                Ok(items) => {
                    let groups = grouped_to_categories(group_dishes(items));
                    Step { stage: Stage::Rendering, action: Action::Render { groups } }
                },
                Err(failure) => fail(Failure::Decode { row: failure.row, reason: failure.reason }),
            },
            Event::InputFailed { reason } => fail(Failure::InputUnreadable { reason }),
            _ => Step { stage: Stage::ReadingInput, action: Action::Ignore },
        },
        Stage::Rendering => match event {
            Event::Rendered { document } => Step {
                stage: Stage::Done,
                action: Action::Emit { document },
            },
            Event::RenderFailed { reason } => fail(Failure::Render { reason }),
            _ => Step { stage: Stage::Rendering, action: Action::Ignore },
        },
        Stage::Done => Step { stage: Stage::Done, action: Action::Ignore },
        Stage::Failed => Step { stage: Stage::Failed, action: Action::Ignore },
    }
}

} // verus!
