//! Scripts that drive the browser for benchmarks: reading them, and writing the
//! one for a scenario.
//!
//! A script holds one command per line:
//!
//! ```text
//! open <url>        # open a new tab and make it active
//! switch <index>    # activate the tab at position <index>, from 0
//! close <index>     # close the tab at position <index>, from 0
//! navigate <url>    # navigate the active tab
//! wait <ms>         # sleep before the next command
//! suspend <index>   # suspend the tab at position <index>, from 0
//! mark              # start the measured phase: what precedes it is warm-up
//! quit              # exit the application
//! ```
//!
//! Lines that are blank or start with `#` are ignored. Any other line that does
//! not parse makes the whole script fail, with the number of the line.

use vstd::prelude::*;
use vstd::string::*;

use crate::navigation::{self, normalize_input};
use crate::scenario::Scenario;
use crate::text::{
    self, chars_of, is_text, parse_number, quote, skip_chars, string_of, take_chars, trim_chars,
};
use crate::weburl;

verus! {

/// The longest wait that a script may ask for.
pub const MAX_WAIT_MS: u64 = 120_000;

/// One command of a script.
#[derive(Debug, Clone, PartialEq, Eq)]
pub enum AutomationCommand {
    /// Open a new tab at a normalized URL and make it active.
    Open { url: String },
    /// Activate the tab at a position.
    Switch { index: usize },
    /// Close the tab at a position.
    Close { index: usize },
    /// Navigate the active tab to a normalized URL.
    Navigate { url: String },
    /// Sleep, at most [`MAX_WAIT_MS`].
    Wait { ms: u64 },
    /// Suspend the tab at a position.
    Suspend { index: usize },
    /// Start the measured phase.
    Mark,
    /// Exit the application.
    Quit,
}

/// A line that does not parse. Lines are counted from 1.
#[derive(Debug, Clone, PartialEq, Eq)]
pub struct AutomationError {
    pub line: usize,
    pub message: String,
}

/// What an [`AutomationCommand`] stands for.
pub enum CommandModel {
    Open(Seq<char>),
    Switch(nat),
    Close(nat),
    Navigate(Seq<char>),
    Wait(nat),
    Suspend(nat),
    Mark,
    Quit,
}

/// What an [`AutomationError`] stands for.
pub struct ErrorModel {
    pub line: nat,
    pub message: Seq<char>,
}

impl View for AutomationCommand {
    type V = CommandModel;

    open spec fn view(&self) -> CommandModel {
        match self {
            AutomationCommand::Open { url } => CommandModel::Open(url@),
            AutomationCommand::Switch { index } => CommandModel::Switch(*index as nat),
            AutomationCommand::Close { index } => CommandModel::Close(*index as nat),
            AutomationCommand::Navigate { url } => CommandModel::Navigate(url@),
            AutomationCommand::Wait { ms } => CommandModel::Wait(*ms as nat),
            AutomationCommand::Suspend { index } => CommandModel::Suspend(*index as nat),
            AutomationCommand::Mark => CommandModel::Mark,
            AutomationCommand::Quit => CommandModel::Quit,
        }
    }
}

impl View for AutomationError {
    type V = ErrorModel;

    open spec fn view(&self) -> ErrorModel {
        ErrorModel { line: self.line as nat, message: self.message@ }
    }
}

impl AutomationError {
    /// The error in words, with the number of the line.
    pub fn describe(&self) -> (r: String)
        ensures
            r@ == text::decimal(self.line as nat) + "行目: "@ + self.message@,
    {
        let mut r = text::decimal_of(self.line as u128);
        r.append("行目: ");
        r.append(&self.message);
        r
    }
}

// ---------------------------------------------------------------------------
// Reading a script

/// The index of the first white space in `s`; its length where it has none.
pub open spec fn first_white_space(s: Seq<char>, from: int) -> int
    decreases s.len() - from,
{
    if from >= s.len() {
        s.len() as int
    } else if text::is_white_space(s[from]) {
        from
    } else {
        first_white_space(s, from + 1)
    }
}

/// The keyword of a line: what stands before the first white space.
pub open spec fn keyword_of(line: Seq<char>) -> Seq<char> {
    line.take(first_white_space(line, 0))
}

/// The argument of a line: what stands after the first white space, trimmed.
pub open spec fn argument_of(line: Seq<char>) -> Seq<char> {
    let n = first_white_space(line, 0);
    if n < line.len() {
        text::trimmed(line.skip(n + 1))
    } else {
        Seq::empty()
    }
}

/// The outcome of reading something on a line.
pub open spec fn failed<T>(line: nat, message: Seq<char>) -> Result<T, ErrorModel> {
    Err(ErrorModel { line, message })
}

/// The URL that an argument stands for, where it normalizes to `url`.
pub open spec fn url_argument(line: nat, rest: Seq<char>, url: Option<Seq<char>>) -> Result<
    Seq<char>,
    ErrorModel,
> {
    if rest.len() == 0 {
        failed(line, "URL が指定されていません"@)
    } else {
        match url {
            Some(u) => Ok(u),
            None => failed(line, "URL を解釈できません: "@ + text::debug_quoted(rest)),
        }
    }
}

/// The position that an argument stands for.
pub open spec fn index_argument(line: nat, keyword: Seq<char>, rest: Seq<char>) -> Result<
    nat,
    ErrorModel,
> {
    if rest.len() == 0 {
        failed(line, keyword + " には index 引数が必要です"@)
    } else {
        match text::parsed_number(rest, usize::MAX as nat) {
            Some(n) => Ok(n),
            None => failed(
                line,
                "index は非負整数で指定してください: "@ + text::debug_quoted(rest),
            ),
        }
    }
}

/// The time that an argument stands for.
pub open spec fn wait_argument(line: nat, rest: Seq<char>) -> Result<nat, ErrorModel> {
    if rest.len() == 0 {
        failed(line, "wait には ms 引数が必要です"@)
    } else {
        match text::parsed_number(rest, u64::MAX as nat) {
            None => failed(
                line,
                "wait の ms は非負整数で指定してください: "@ + text::debug_quoted(rest),
            ),
            Some(ms) => if ms > MAX_WAIT_MS {
                failed(
                    line,
                    "wait は最大 "@ + text::decimal(MAX_WAIT_MS as nat) + "ms までです (指定値: "@
                        + text::decimal(ms) + "ms)"@,
                )
            } else {
                Ok(ms)
            },
        }
    }
}

/// The command that a trimmed line stands for.
pub open spec fn command_of(line: nat, content: Seq<char>) -> Result<CommandModel, ErrorModel> {
    let keyword = keyword_of(content);
    let rest = argument_of(content);
    if keyword == "open"@ {
        match url_argument(line, rest, navigation::normalized(rest)) {
            Ok(url) => Ok(CommandModel::Open(url)),
            Err(e) => Err(e),
        }
    } else if keyword == "navigate"@ {
        match url_argument(line, rest, navigation::normalized(rest)) {
            Ok(url) => Ok(CommandModel::Navigate(url)),
            Err(e) => Err(e),
        }
    } else if keyword == "switch"@ {
        match index_argument(line, "switch"@, rest) {
            Ok(n) => Ok(CommandModel::Switch(n)),
            Err(e) => Err(e),
        }
    } else if keyword == "close"@ {
        match index_argument(line, "close"@, rest) {
            Ok(n) => Ok(CommandModel::Close(n)),
            Err(e) => Err(e),
        }
    } else if keyword == "wait"@ {
        match wait_argument(line, rest) {
            Ok(ms) => Ok(CommandModel::Wait(ms)),
            Err(e) => Err(e),
        }
    } else if keyword == "suspend"@ {
        match index_argument(line, "suspend"@, rest) {
            Ok(n) => Ok(CommandModel::Suspend(n)),
            Err(e) => Err(e),
        }
    } else if keyword == "mark"@ {
        if rest.len() == 0 {
            Ok(CommandModel::Mark)
        } else {
            failed(line, "mark は引数を取りません: "@ + text::debug_quoted(rest))
        }
    } else if keyword == "quit"@ {
        if rest.len() == 0 {
            Ok(CommandModel::Quit)
        } else {
            failed(line, "quit は引数を取りません: "@ + text::debug_quoted(rest))
        }
    } else if keyword.len() == 0 {
        failed(line, "空のコマンドです"@)
    } else {
        failed(line, "未知のコマンドです: "@ + text::debug_quoted(keyword))
    }
}

/// Whether a line holds no command.
pub open spec fn is_no_command(line: Seq<char>) -> bool {
    let content = text::trimmed(line);
    content.len() == 0 || content.first() == '#'
}

/// The commands that lines stand for, or the first error.
pub open spec fn commands_of(lines: Seq<Seq<char>>) -> Result<Seq<CommandModel>, ErrorModel>
    decreases lines.len(),
{
    if lines.len() == 0 {
        Ok(Seq::empty())
    } else {
        match commands_of(lines.drop_last()) {
            Err(e) => Err(e),
            Ok(before) => if is_no_command(lines.last()) {
                Ok(before)
            } else {
                match command_of(lines.len(), text::trimmed(lines.last())) {
                    Ok(command) => Ok(before.push(command)),
                    Err(e) => Err(e),
                }
            },
        }
    }
}

/// Whether a command loads only what may be loaded, and waits no longer than
/// [`MAX_WAIT_MS`].
pub open spec fn is_within_bounds(command: CommandModel) -> bool {
    match command {
        CommandModel::Open(url) => navigation::has_allowed_scheme(url),
        CommandModel::Navigate(url) => navigation::has_allowed_scheme(url),
        CommandModel::Wait(ms) => ms <= MAX_WAIT_MS,
        _ => true,
    }
}

/// What the commands read from a script stand for.
pub open spec fn command_models(v: Seq<AutomationCommand>) -> Seq<CommandModel> {
    v.map_values(|c: AutomationCommand| c@)
}

proof fn lemma_first_error_stays(lines: Seq<Seq<char>>, k: int)
    requires
        0 <= k <= lines.len(),
        commands_of(lines.take(k)) is Err,
    ensures
        commands_of(lines) == commands_of(lines.take(k)),
    decreases lines.len() - k,
{
    if k == lines.len() {
        assert(lines.take(k) =~= lines);
    } else {
        assert(lines.take(k + 1).drop_last() =~= lines.take(k));
        lemma_first_error_stays(lines, k + 1);
    }
}

fn err(line: usize, message: String) -> (r: AutomationError)
    ensures
        r.line == line,
        r.message@ == message@,
{
    AutomationError { line, message }
}

fn quoted_err(line: usize, message: &str, argument: &[char]) -> (r: AutomationError)
    ensures
        r@ == (ErrorModel { line: line as nat, message: message@ + text::debug_quoted(argument@) }),
{
    let mut text = message.to_owned();
    text.append(&quote(&string_of(argument)));
    err(line, text)
}

/// The URL that an argument stands for, where it normalizes to `url`.
pub fn take_url(line: usize, rest: &[char], url: Option<String>) -> (r: Result<
    String,
    AutomationError,
>)
    ensures
        match r {
            Ok(u) => url_argument(line as nat, rest@, weburl::opt_text(url)) == Ok::<
                Seq<char>,
                ErrorModel,
            >(u@),
            Err(e) => url_argument(line as nat, rest@, weburl::opt_text(url)) == Err::<
                Seq<char>,
                ErrorModel,
            >(e@),
        },
{
    if rest.len() == 0 {
        return Err(err(line, "URL が指定されていません".to_owned()));
    }
    match url {
        Some(u) => Ok(u),
        None => Err(quoted_err(line, "URL を解釈できません: ", rest)),
    }
}

fn parse_url(line: usize, rest: &[char]) -> (r: Result<String, AutomationError>)
    ensures
        match r {
            Ok(u) => url_argument(line as nat, rest@, navigation::normalized(rest@)) == Ok::<
                Seq<char>,
                ErrorModel,
            >(u@),
            Err(e) => url_argument(line as nat, rest@, navigation::normalized(rest@)) == Err::<
                Seq<char>,
                ErrorModel,
            >(e@),
        },
        r matches Ok(u) ==> navigation::has_allowed_scheme(u@),
{
    take_url(line, rest, normalize_input(&string_of(rest)))
}

fn parse_index(line: usize, keyword: &str, rest: &[char]) -> (r: Result<usize, AutomationError>)
    ensures
        match r {
            Ok(n) => index_argument(line as nat, keyword@, rest@) == Ok::<nat, ErrorModel>(
                n as nat,
            ),
            Err(e) => index_argument(line as nat, keyword@, rest@) == Err::<nat, ErrorModel>(e@),
        },
{
    if rest.len() == 0 {
        let mut message = keyword.to_owned();
        message.append(" には index 引数が必要です");
        return Err(err(line, message));
    }
    match parse_number(rest, usize::MAX as u64) {
        Some(n) => Ok(n as usize),
        None => Err(quoted_err(line, "index は非負整数で指定してください: ", rest)),
    }
}

fn parse_wait(line: usize, rest: &[char]) -> (r: Result<u64, AutomationError>)
    ensures
        match r {
            Ok(ms) => wait_argument(line as nat, rest@) == Ok::<nat, ErrorModel>(ms as nat),
            Err(e) => wait_argument(line as nat, rest@) == Err::<nat, ErrorModel>(e@),
        },
{
    if rest.len() == 0 {
        return Err(err(line, "wait には ms 引数が必要です".to_owned()));
    }
    match parse_number(rest, u64::MAX) {
        None => Err(quoted_err(line, "wait の ms は非負整数で指定してください: ", rest)),
        Some(ms) => {
            if ms > MAX_WAIT_MS {
                let mut message = "wait は最大 ".to_owned();
                message.append(&text::decimal_of(MAX_WAIT_MS as u128));
                message.append("ms までです (指定値: ");
                message.append(&text::decimal_of(ms as u128));
                message.append("ms)");
                return Err(err(line, message));
            }
            Ok(ms)
        },
    }
}

fn white_space_index(s: &[char]) -> (r: usize)
    ensures
        r == first_white_space(s@, 0),
        r <= s@.len(),
{
    let mut i: usize = 0;
    while i < s.len() && !s[i].is_whitespace()
        invariant
            i <= s@.len(),
            first_white_space(s@, 0) == first_white_space(s@, i as int),
        decreases s@.len() - i,
    {
        i = i + 1;
    }
    i
}

fn parse_line(line: usize, content: &[char]) -> (r: Result<AutomationCommand, AutomationError>)
    ensures
        match r {
            Ok(c) => command_of(line as nat, content@) == Ok::<CommandModel, ErrorModel>(c@),
            Err(e) => command_of(line as nat, content@) == Err::<CommandModel, ErrorModel>(e@),
        },
        r matches Ok(c) ==> is_within_bounds(c@),
{
    let n: usize = white_space_index(content);
    let keyword = take_chars(content, n);
    let empty: Vec<char> = Vec::new();
    let rest = if n < content.len() {
        trim_chars(skip_chars(content, n + 1))
    } else {
        empty.as_slice()
    };
    assert(rest@ =~= argument_of(content@));
    if is_text(keyword, "open") {
        match parse_url(line, rest) {
            Ok(url) => Ok(AutomationCommand::Open { url }),
            Err(e) => Err(e),
        }
    } else if is_text(keyword, "navigate") {
        match parse_url(line, rest) {
            Ok(url) => Ok(AutomationCommand::Navigate { url }),
            Err(e) => Err(e),
        }
    } else if is_text(keyword, "switch") {
        match parse_index(line, "switch", rest) {
            Ok(index) => Ok(AutomationCommand::Switch { index }),
            Err(e) => Err(e),
        }
    } else if is_text(keyword, "close") {
        match parse_index(line, "close", rest) {
            Ok(index) => Ok(AutomationCommand::Close { index }),
            Err(e) => Err(e),
        }
    } else if is_text(keyword, "wait") {
        match parse_wait(line, rest) {
            Ok(ms) => Ok(AutomationCommand::Wait { ms }),
            Err(e) => Err(e),
        }
    } else if is_text(keyword, "suspend") {
        match parse_index(line, "suspend", rest) {
            Ok(index) => Ok(AutomationCommand::Suspend { index }),
            Err(e) => Err(e),
        }
    } else if is_text(keyword, "mark") {
        if rest.len() == 0 {
            Ok(AutomationCommand::Mark)
        } else {
            Err(quoted_err(line, "mark は引数を取りません: ", rest))
        }
    } else if is_text(keyword, "quit") {
        if rest.len() == 0 {
            Ok(AutomationCommand::Quit)
        } else {
            Err(quoted_err(line, "quit は引数を取りません: ", rest))
        }
    } else if keyword.len() == 0 {
        Err(err(line, "空のコマンドです".to_owned()))
    } else {
        Err(quoted_err(line, "未知のコマンドです: ", keyword))
    }
}

/// Reads a whole script: every command in order, or the first error.
///
/// URLs are normalized as address bar input is, so that one that is refused is
/// found before any command runs. So is a pause that is too long.
pub fn parse_script(text: &str) -> (r: Result<Vec<AutomationCommand>, AutomationError>)
    ensures
        match r {
            Ok(v) => commands_of(text::lines(text@)) == Ok::<Seq<CommandModel>, ErrorModel>(
                command_models(v@),
            ),
            Err(e) => commands_of(text::lines(text@)) == Err::<Seq<CommandModel>, ErrorModel>(e@),
        },
        r matches Ok(v) ==> forall|i: int|
            0 <= i < v@.len() ==> is_within_bounds((#[trigger] v@[i])@),
{
    let lines = text::lines_of(&chars_of(text));
    let ghost all = text::lines(text@);
    let mut commands: Vec<AutomationCommand> = Vec::new();
    assert(command_models(commands@) =~= Seq::empty());
    for i in 0..lines.len()
        invariant
            text::texts(lines@) == all,
            all == text::lines(text@),
            commands_of(all.take(i as int)) == Ok::<Seq<CommandModel>, ErrorModel>(
                command_models(commands@),
            ),
            forall|k: int|
                0 <= k < commands@.len() ==> is_within_bounds((#[trigger] commands@[k])@),
    {
        proof {
            assert(all[i as int] == lines@[i as int]@);
            assert(all.take(i + 1).drop_last() =~= all.take(i as int));
            assert(all.take(i + 1).last() == lines@[i as int]@);
        }
        let content = trim_chars(&lines[i]);
        if content.len() > 0 && content[0] != '#' {
            match parse_line(i + 1, content) {
                Ok(command) => {
                    let ghost before = command_models(commands@);
                    commands.push(command);
                    assert(command_models(commands@) =~= before.push(command@));
                },
                Err(e) => {
                    proof {
                        lemma_first_error_stays(all, i + 1);
                    }
                    return Err(e);
                },
            }
        }
    }
    assert(all.take(all.len() as int) =~= all);
    Ok(commands)
}

// ---------------------------------------------------------------------------
// Writing the script for a scenario

/// How many pages the navigation scenario goes through.
pub const NAVIGATION_STEPS: usize = 5;

/// How many tabs the scenario for creating tabs creates.
pub const TAB_CREATE_COUNT: usize = 5;

/// How many times the scenarios that create a tab at a given number of them do
/// so.
pub const TAB_CREATE_AT_ROUNDS: usize = 8;

/// How many tabs the switching scenario opens beside the first.
pub const TAB_SWITCH_EXTRA_TABS: usize = 4;

/// How many times the switching scenarios switch.
pub const TAB_SWITCH_REPEATS: usize = 8;

/// How many times the scenario for resuming tabs suspends one.
pub const TAB_RESUME_ROUNDS: usize = 8;

/// The pause after a step that loads a page.
pub const STEP_SETTLE_MS: u64 = 300;

/// The pause after a switch.
pub const SWITCH_SETTLE_MS: u64 = 200;

/// The pause in which memory is sampled.
pub const MEMORY_STABILIZE_MS: u64 = 3_000;

/// How many samples are to fall into [`MEMORY_STABILIZE_MS`].
pub const TARGET_STABILIZED_RSS_SAMPLES: u64 = 4;

/// The pause that lets tabs be suspended before memory is sampled: more than two
/// periods of the sampler that decides about it.
pub const MEMORY_HOLD_SETTLE_MS: u64 = 12_000;

/// What a step that is no wait takes, about.
pub const PER_STEP_OVERHEAD_MS: u64 = 250;

/// The time that a launch is given.
pub const STARTUP_DEFAULT_SECS: u64 = 5;

/// The time that an exit is given.
pub const TEARDOWN_BUFFER_SECS: u64 = 3;

/// One step of a generated script.
#[derive(Debug, Clone, Copy, PartialEq, Eq, Structural)]
pub enum BenchStep {
    /// Open the page in a new tab.
    Open,
    /// Open the page in a new tab, with what makes it busy turned off.
    OpenIdle,
    /// Navigate to a variant of the page.
    Navigate(u64),
    Switch(u64),
    Close(u64),
    Wait(u64),
    Suspend(u64),
    Mark,
    Quit,
}

/// `block`, `n` times over.
pub open spec fn repeated(block: Seq<BenchStep>, n: nat) -> Seq<BenchStep>
    decreases n,
{
    if n == 0 {
        Seq::empty()
    } else {
        repeated(block, (n - 1) as nat) + block
    }
}

/// Navigation to `n` variants of the page.
pub open spec fn navigations(n: nat) -> Seq<BenchStep>
    decreases n,
{
    if n == 0 {
        Seq::empty()
    } else {
        navigations((n - 1) as nat) + seq![
            BenchStep::Navigate(n as u64),
            BenchStep::Wait(STEP_SETTLE_MS),
        ]
    }
}

/// `n` switches, round and round through `tabs` tabs.
pub open spec fn switches(tabs: nat, n: nat) -> Seq<BenchStep>
    decreases n,
{
    if n == 0 {
        Seq::empty()
    } else {
        switches(tabs, (n - 1) as nat) + seq![
            BenchStep::Switch(((n - 1) as nat % tabs) as u64),
            BenchStep::Wait(SWITCH_SETTLE_MS),
        ]
    }
}

/// `n` times suspending a tab and switching back to it, round and round through
/// `tabs` tabs.
pub open spec fn resumes(tabs: nat, n: nat) -> Seq<BenchStep>
    decreases n,
{
    if n == 0 {
        Seq::empty()
    } else {
        let index = ((n - 1) as nat % tabs) as u64;
        resumes(tabs, (n - 1) as nat) + seq![
            BenchStep::Suspend(index),
            BenchStep::Wait(SWITCH_SETTLE_MS),
            BenchStep::Switch(index),
            BenchStep::Wait(STEP_SETTLE_MS),
        ]
    }
}

/// The number of tabs to open beside the first, for `n` in all.
pub open spec fn extra_tabs(n: u32) -> nat {
    if n == 0 {
        0
    } else {
        (n - 1) as nat
    }
}

/// The steps of a scenario's script without the final one; `None` where the
/// scenario needs no script.
pub open spec fn body_of(scenario: Scenario) -> Option<Seq<BenchStep>> {
    match scenario {
        Scenario::ColdStartup | Scenario::WarmStartup | Scenario::FirstPageLoad => None,
        Scenario::Navigation => Some(navigations(NAVIGATION_STEPS as nat)),
        Scenario::TabCreate => Some(
            repeated(
                seq![BenchStep::Open, BenchStep::Wait(STEP_SETTLE_MS)],
                TAB_CREATE_COUNT as nat,
            ),
        ),
        Scenario::TabSwitch => Some(
            repeated(seq![BenchStep::Open], TAB_SWITCH_EXTRA_TABS as nat) + seq![
                BenchStep::Wait(STEP_SETTLE_MS),
            ] + switches((TAB_SWITCH_EXTRA_TABS + 1) as nat, TAB_SWITCH_REPEATS as nat),
        ),
        Scenario::TabResume => Some(
            repeated(seq![BenchStep::Open], TAB_SWITCH_EXTRA_TABS as nat) + seq![
                BenchStep::Wait(STEP_SETTLE_MS),
            ] + resumes((TAB_SWITCH_EXTRA_TABS + 1) as nat, TAB_RESUME_ROUNDS as nat),
        ),
        Scenario::BackgroundCpu => Some(
            seq![BenchStep::OpenIdle, BenchStep::Wait(MEMORY_STABILIZE_MS)],
        ),
        Scenario::TabCreateAt(n) => Some(
            repeated(seq![BenchStep::Open], extra_tabs(n)) + seq![
                BenchStep::Wait(STEP_SETTLE_MS),
                BenchStep::Mark,
            ] + repeated(
                seq![
                    BenchStep::Open,
                    BenchStep::Wait(STEP_SETTLE_MS),
                    BenchStep::Close((extra_tabs(n) + 1) as u64),
                    BenchStep::Wait(STEP_SETTLE_MS),
                ],
                TAB_CREATE_AT_ROUNDS as nat,
            ),
        ),
        Scenario::TabSwitchAt(n) => Some(
            repeated(seq![BenchStep::Open], extra_tabs(n)) + seq![
                BenchStep::Wait(STEP_SETTLE_MS),
                BenchStep::Mark,
            ] + switches(extra_tabs(n) + 1, TAB_SWITCH_REPEATS as nat),
        ),
        Scenario::TabCountMemory(n) => Some(
            repeated(seq![BenchStep::Open], extra_tabs(n)) + seq![
                BenchStep::Wait(MEMORY_STABILIZE_MS),
            ],
        ),
        Scenario::TabCountMemoryHold(n) => Some(
            repeated(
                seq![BenchStep::Open, BenchStep::Wait(STEP_SETTLE_MS)],
                extra_tabs(n),
            ) + seq![
                BenchStep::Wait(MEMORY_HOLD_SETTLE_MS),
                BenchStep::Mark,
                BenchStep::Wait(MEMORY_STABILIZE_MS),
            ],
        ),
    }
}

/// The line of a step, for the page at `url`.
pub open spec fn step_line(step: BenchStep, url: Seq<char>) -> Seq<char> {
    match step {
        BenchStep::Open => "open "@ + url,
        BenchStep::OpenIdle => "open "@ + (url + "?idle=1"@),
        BenchStep::Navigate(k) => "navigate "@ + (url + "?velox-bench-step="@ + text::decimal(
            k as nat,
        )),
        BenchStep::Switch(i) => "switch "@ + text::decimal(i as nat),
        BenchStep::Close(i) => "close "@ + text::decimal(i as nat),
        BenchStep::Wait(ms) => "wait "@ + text::decimal(ms as nat),
        BenchStep::Suspend(i) => "suspend "@ + text::decimal(i as nat),
        BenchStep::Mark => "mark"@,
        BenchStep::Quit => "quit"@,
    }
}

/// The text of a script: the lines of its steps, each with a line feed.
pub open spec fn script_text(steps: Seq<BenchStep>, url: Seq<char>) -> Seq<char>
    decreases steps.len(),
{
    if steps.len() == 0 {
        Seq::empty()
    } else {
        script_text(steps.drop_last(), url) + (step_line(steps.last(), url) + "\n"@)
    }
}

/// The script for a scenario; it ends with `quit`.
pub open spec fn bench_script(scenario: Scenario, url: Seq<char>) -> Option<Seq<char>> {
    match body_of(scenario) {
        Some(steps) => Some(script_text(steps.push(BenchStep::Quit), url)),
        None => None,
    }
}

fn push_repeated(out: &mut Vec<BenchStep>, block: &Vec<BenchStep>, n: u32)
    ensures
        final(out)@ == old(out)@ + repeated(block@, n as nat),
{
    let ghost before = out@;
    let mut done: u32 = 0;
    assert(out@ =~= before + repeated(block@, 0));
    while done < n
        invariant
            done <= n,
            out@ == before + repeated(block@, done as nat),
        decreases n - done,
    {
        let ghost start = out@;
        for k in 0..block.len()
            invariant
                out@ == start + block@.take(k as int),
        {
            out.push(block[k]);
            assert(out@ =~= start + block@.take(k + 1));
        }
        assert(block@.take(block@.len() as int) =~= block@);
        assert(out@ =~= before + repeated(block@, (done + 1) as nat));
        done = done + 1;
    }
}

fn push_navigations(out: &mut Vec<BenchStep>, n: usize)
    requires
        n <= 1000,
    ensures
        final(out)@ == old(out)@ + navigations(n as nat),
{
    let ghost before = out@;
    let mut k: usize = 0;
    assert(out@ =~= before + navigations(0));
    while k < n
        invariant
            k <= n <= 1000,
            out@ == before + navigations(k as nat),
        decreases n - k,
    {
        k = k + 1;
        out.push(BenchStep::Navigate(k as u64));
        out.push(BenchStep::Wait(STEP_SETTLE_MS));
        assert(out@ =~= before + navigations(k as nat));
    }
}

fn push_switches(out: &mut Vec<BenchStep>, tabs: u64, n: usize)
    requires
        tabs > 0,
    ensures
        final(out)@ == old(out)@ + switches(tabs as nat, n as nat),
{
    let ghost before = out@;
    let mut k: usize = 0;
    assert(out@ =~= before + switches(tabs as nat, 0));
    while k < n
        invariant
            k <= n,
            tabs > 0,
            out@ == before + switches(tabs as nat, k as nat),
        decreases n - k,
    {
        out.push(BenchStep::Switch(k as u64 % tabs));
        out.push(BenchStep::Wait(SWITCH_SETTLE_MS));
        k = k + 1;
        assert(out@ =~= before + switches(tabs as nat, k as nat));
    }
}

fn push_resumes(out: &mut Vec<BenchStep>, tabs: u64, n: usize)
    requires
        tabs > 0,
    ensures
        final(out)@ == old(out)@ + resumes(tabs as nat, n as nat),
{
    let ghost before = out@;
    let mut k: usize = 0;
    assert(out@ =~= before + resumes(tabs as nat, 0));
    while k < n
        invariant
            k <= n,
            tabs > 0,
            out@ == before + resumes(tabs as nat, k as nat),
        decreases n - k,
    {
        let index: u64 = k as u64 % tabs;
        out.push(BenchStep::Suspend(index));
        out.push(BenchStep::Wait(SWITCH_SETTLE_MS));
        out.push(BenchStep::Switch(index));
        out.push(BenchStep::Wait(STEP_SETTLE_MS));
        k = k + 1;
        assert(out@ =~= before + resumes(tabs as nat, k as nat));
    }
}

/// The number of tabs to open beside the first, for `n` in all.
fn extra(n: u32) -> (r: u32)
    ensures
        r == extra_tabs(n),
{
    if n == 0 {
        0
    } else {
        n - 1
    }
}

fn body_steps(scenario: Scenario) -> (r: Option<Vec<BenchStep>>)
    ensures
        match r {
            Some(v) => body_of(scenario) == Some(v@),
            None => body_of(scenario) is None,
        },
{
    let mut out: Vec<BenchStep> = Vec::new();
    let open = vec![BenchStep::Open];
    let open_and_wait = vec![BenchStep::Open, BenchStep::Wait(STEP_SETTLE_MS)];
    assert(open@ =~= seq![BenchStep::Open]);
    assert(open_and_wait@ =~= seq![BenchStep::Open, BenchStep::Wait(STEP_SETTLE_MS)]);
    match scenario {
        Scenario::ColdStartup | Scenario::WarmStartup | Scenario::FirstPageLoad => {
            return None;
        },
        Scenario::Navigation => {
            push_navigations(&mut out, NAVIGATION_STEPS);
        },
        Scenario::TabCreate => {
            push_repeated(&mut out, &open_and_wait, TAB_CREATE_COUNT as u32);
        },
        Scenario::TabSwitch => {
            push_repeated(&mut out, &open, TAB_SWITCH_EXTRA_TABS as u32);
            out.push(BenchStep::Wait(STEP_SETTLE_MS));
            push_switches(&mut out, TAB_SWITCH_EXTRA_TABS as u64 + 1, TAB_SWITCH_REPEATS);
        },
        Scenario::TabResume => {
            push_repeated(&mut out, &open, TAB_SWITCH_EXTRA_TABS as u32);
            out.push(BenchStep::Wait(STEP_SETTLE_MS));
            push_resumes(&mut out, TAB_SWITCH_EXTRA_TABS as u64 + 1, TAB_RESUME_ROUNDS);
        },
        Scenario::BackgroundCpu => {
            out.push(BenchStep::OpenIdle);
            out.push(BenchStep::Wait(MEMORY_STABILIZE_MS));
        },
        Scenario::TabCreateAt(n) => {
            push_repeated(&mut out, &open, extra(n));
            out.push(BenchStep::Wait(STEP_SETTLE_MS));
            out.push(BenchStep::Mark);
            let round = vec![
                BenchStep::Open,
                BenchStep::Wait(STEP_SETTLE_MS),
                BenchStep::Close(extra(n) as u64 + 1),
                BenchStep::Wait(STEP_SETTLE_MS),
            ];
            assert(round@ =~= seq![
                BenchStep::Open,
                BenchStep::Wait(STEP_SETTLE_MS),
                BenchStep::Close((extra_tabs(n) + 1) as u64),
                BenchStep::Wait(STEP_SETTLE_MS),
            ]);
            push_repeated(&mut out, &round, TAB_CREATE_AT_ROUNDS as u32);
        },
        Scenario::TabSwitchAt(n) => {
            push_repeated(&mut out, &open, extra(n));
            out.push(BenchStep::Wait(STEP_SETTLE_MS));
            out.push(BenchStep::Mark);
            push_switches(&mut out, extra(n) as u64 + 1, TAB_SWITCH_REPEATS);
        },
        Scenario::TabCountMemory(n) => {
            push_repeated(&mut out, &open, extra(n));
            out.push(BenchStep::Wait(MEMORY_STABILIZE_MS));
        },
        Scenario::TabCountMemoryHold(n) => {
            push_repeated(&mut out, &open_and_wait, extra(n));
            out.push(BenchStep::Wait(MEMORY_HOLD_SETTLE_MS));
            out.push(BenchStep::Mark);
            out.push(BenchStep::Wait(MEMORY_STABILIZE_MS));
        },
    }
    assert(out@ =~= body_of(scenario)->0);
    Some(out)
}

fn push_step_line(out: &mut String, step: BenchStep, url: &str)
    ensures
        final(out)@ == old(out)@ + (step_line(step, url@) + "\n"@),
{
    let ghost before = out@;
    match step {
        BenchStep::Open => {
            out.append("open ");
            out.append(url);
        },
        BenchStep::OpenIdle => {
            out.append("open ");
            out.append(url);
            out.append("?idle=1");
        },
        BenchStep::Navigate(k) => {
            out.append("navigate ");
            out.append(url);
            out.append("?velox-bench-step=");
            out.append(&text::decimal_of(k as u128));
        },
        BenchStep::Switch(i) => {
            out.append("switch ");
            out.append(&text::decimal_of(i as u128));
        },
        BenchStep::Close(i) => {
            out.append("close ");
            out.append(&text::decimal_of(i as u128));
        },
        BenchStep::Wait(ms) => {
            out.append("wait ");
            out.append(&text::decimal_of(ms as u128));
        },
        BenchStep::Suspend(i) => {
            out.append("suspend ");
            out.append(&text::decimal_of(i as u128));
        },
        BenchStep::Mark => {
            out.append("mark");
        },
        BenchStep::Quit => {
            out.append("quit");
        },
    }
    out.append("\n");
    assert(out@ =~= before + (step_line(step, url@) + "\n"@));
}

/// The script for a scenario on the page at `url`; `None` for the three
/// scenarios that need none. It ends with `quit`, so that the process exits by
/// itself.
pub fn generate_bench_script(scenario: Scenario, url: &str) -> (r: Option<String>)
    ensures
        weburl::opt_text(r) == bench_script(scenario, url@),
{
    match body_steps(scenario) {
        None => None,
        Some(mut steps) => {
            steps.push(BenchStep::Quit);
            let mut out = String::new();
            for i in 0..steps.len()
                invariant
                    out@ == script_text(steps@.take(i as int), url@),
            {
                push_step_line(&mut out, steps[i], url);
                assert(steps@.take(i + 1).drop_last() =~= steps@.take(i as int));
            }
            assert(steps@.take(steps@.len() as int) =~= steps@);
            Some(out)
        },
    }
}

/// Whether a scenario needs a script: all but the three startup scenarios do.
pub fn needs_automation_script(scenario: Scenario) -> (r: bool)
    ensures
        r == (body_of(scenario) is Some),
{
    match scenario {
        Scenario::ColdStartup | Scenario::WarmStartup | Scenario::FirstPageLoad => false,
        _ => true,
    }
}

/// What a step takes, about.
pub open spec fn step_ms(step: BenchStep) -> nat {
    match step {
        BenchStep::Wait(ms) => ms as nat,
        BenchStep::Mark | BenchStep::Quit => 0,
        _ => PER_STEP_OVERHEAD_MS as nat,
    }
}

/// What steps take, about.
pub open spec fn script_ms(steps: Seq<BenchStep>) -> nat
    decreases steps.len(),
{
    if steps.len() == 0 {
        0
    } else {
        script_ms(steps.drop_last()) + step_ms(steps.last())
    }
}

proof fn lemma_script_ms_of_concat(a: Seq<BenchStep>, b: Seq<BenchStep>)
    ensures
        script_ms(a + b) == script_ms(a) + script_ms(b),
    decreases b.len(),
{
    if b.len() == 0 {
        assert(a + b =~= a);
    } else {
        assert((a + b).drop_last() =~= a + b.drop_last());
        lemma_script_ms_of_concat(a, b.drop_last());
    }
}

proof fn lemma_script_ms_of_repeated(block: Seq<BenchStep>, n: nat)
    ensures
        script_ms(repeated(block, n)) == n * script_ms(block),
    decreases n,
{
    if n > 0 {
        let m = (n - 1) as nat;
        lemma_script_ms_of_repeated(block, m);
        lemma_script_ms_of_concat(repeated(block, m), block);
        assert(n * script_ms(block) == m * script_ms(block) + script_ms(block)) by (nonlinear_arith)
            requires
                n == m + 1,
        ;
    } else {
        assert(0 * script_ms(block) == 0) by (nonlinear_arith);
    }
}

proof fn lemma_script_ms_of_navigations(n: nat)
    ensures
        script_ms(navigations(n)) == n * (PER_STEP_OVERHEAD_MS + STEP_SETTLE_MS),
    decreases n,
{
    reveal_with_fuel(script_ms, 3);
    if n > 0 {
        let m = (n - 1) as nat;
        lemma_script_ms_of_navigations(m);
        let block = seq![BenchStep::Navigate(n as u64), BenchStep::Wait(STEP_SETTLE_MS)];
        lemma_script_ms_of_concat(navigations(m), block);
        assert(block.drop_last() =~= seq![BenchStep::Navigate(n as u64)]);
        assert(block.drop_last().drop_last() =~= Seq::empty());
    }
}

proof fn lemma_script_ms_of_switches(tabs: nat, n: nat)
    ensures
        script_ms(switches(tabs, n)) == n * (PER_STEP_OVERHEAD_MS + SWITCH_SETTLE_MS),
    decreases n,
{
    reveal_with_fuel(script_ms, 3);
    if n > 0 {
        let m = (n - 1) as nat;
        lemma_script_ms_of_switches(tabs, m);
        let block = seq![
            BenchStep::Switch((m % tabs) as u64),
            BenchStep::Wait(SWITCH_SETTLE_MS),
        ];
        lemma_script_ms_of_concat(switches(tabs, m), block);
        assert(block.drop_last() =~= seq![block[0]]);
        assert(block.drop_last().drop_last() =~= Seq::empty());
    }
}

proof fn lemma_script_ms_of_resumes(tabs: nat, n: nat)
    ensures
        script_ms(resumes(tabs, n)) == n * (PER_STEP_OVERHEAD_MS + SWITCH_SETTLE_MS
            + PER_STEP_OVERHEAD_MS + STEP_SETTLE_MS),
    decreases n,
{
    reveal_with_fuel(script_ms, 5);
    if n > 0 {
        let m = (n - 1) as nat;
        let index = (m % tabs) as u64;
        lemma_script_ms_of_resumes(tabs, m);
        let block = seq![
            BenchStep::Suspend(index),
            BenchStep::Wait(SWITCH_SETTLE_MS),
            BenchStep::Switch(index),
            BenchStep::Wait(STEP_SETTLE_MS),
        ];
        lemma_script_ms_of_concat(resumes(tabs, m), block);
        let first = seq![block[0]];
        let second = first.push(block[1]);
        let third = second.push(block[2]);
        assert(block.drop_last() =~= third);
        assert(third.drop_last() =~= second);
        assert(second.drop_last() =~= first);
        assert(first.drop_last() =~= Seq::empty());
        assert(script_ms(block) == PER_STEP_OVERHEAD_MS + SWITCH_SETTLE_MS + PER_STEP_OVERHEAD_MS
            + STEP_SETTLE_MS);
        let round: int = PER_STEP_OVERHEAD_MS + SWITCH_SETTLE_MS + PER_STEP_OVERHEAD_MS
            + STEP_SETTLE_MS;
        assert(n * round == m * round + round) by (nonlinear_arith)
            requires
                n == m + 1,
        ;
        assert(script_ms(resumes(tabs, m)) == m * round);
        assert(resumes(tabs, n) =~= resumes(tabs, m) + block);
        assert(script_ms(resumes(tabs, n)) == script_ms(resumes(tabs, m)) + script_ms(block));
    } else {
        assert(script_ms(resumes(tabs, n)) == 0);
    }
}

/// What a script takes in milliseconds, in closed form.
fn body_ms(scenario: Scenario) -> (r: Option<u64>)
    ensures
        match r {
            Some(ms) => body_of(scenario) is Some && ms == script_ms(body_of(scenario)->0) && ms
                <= 0x1_0000_0000 * 1_000,
            None => body_of(scenario) is None,
        },
{
    proof {
        reveal_with_fuel(script_ms, 5);
        let open = seq![BenchStep::Open];
        let settle = seq![BenchStep::Wait(STEP_SETTLE_MS)];
        let stabilize = seq![BenchStep::Wait(MEMORY_STABILIZE_MS)];
        let open_and_wait = seq![BenchStep::Open, BenchStep::Wait(STEP_SETTLE_MS)];
        assert(open.drop_last() =~= Seq::empty());
        assert(settle.drop_last() =~= Seq::empty());
        let settle_and_mark = seq![BenchStep::Wait(STEP_SETTLE_MS), BenchStep::Mark];
        assert(settle_and_mark.drop_last() =~= settle);
        assert(stabilize.drop_last() =~= Seq::empty());
        assert(open_and_wait.drop_last() =~= open);
        lemma_script_ms_of_navigations(NAVIGATION_STEPS as nat);
        match scenario {
            Scenario::TabCreate => {
                lemma_script_ms_of_repeated(open_and_wait, TAB_CREATE_COUNT as nat);
            },
            Scenario::TabResume => {
                let opens = repeated(open, TAB_SWITCH_EXTRA_TABS as nat);
                let tail = resumes((TAB_SWITCH_EXTRA_TABS + 1) as nat, TAB_RESUME_ROUNDS as nat);
                lemma_script_ms_of_repeated(open, TAB_SWITCH_EXTRA_TABS as nat);
                lemma_script_ms_of_resumes(
                    (TAB_SWITCH_EXTRA_TABS + 1) as nat,
                    TAB_RESUME_ROUNDS as nat,
                );
                lemma_script_ms_of_concat(opens, settle);
                lemma_script_ms_of_concat(opens + settle, tail);
            },
            Scenario::TabSwitch => {
                let opens = repeated(open, TAB_SWITCH_EXTRA_TABS as nat);
                let tail = switches((TAB_SWITCH_EXTRA_TABS + 1) as nat, TAB_SWITCH_REPEATS as nat);
                lemma_script_ms_of_repeated(open, TAB_SWITCH_EXTRA_TABS as nat);
                lemma_script_ms_of_switches(
                    (TAB_SWITCH_EXTRA_TABS + 1) as nat,
                    TAB_SWITCH_REPEATS as nat,
                );
                lemma_script_ms_of_concat(opens, settle);
                lemma_script_ms_of_concat(opens + settle, tail);
            },
            Scenario::BackgroundCpu => {
                let steps = seq![BenchStep::OpenIdle, BenchStep::Wait(MEMORY_STABILIZE_MS)];
                assert(steps.drop_last() =~= seq![BenchStep::OpenIdle]);
                assert(steps.drop_last().drop_last() =~= Seq::empty());
            },
            Scenario::TabCreateAt(n) => {
                let opens = repeated(open, extra_tabs(n));
                let round = seq![
                    BenchStep::Open,
                    BenchStep::Wait(STEP_SETTLE_MS),
                    BenchStep::Close((extra_tabs(n) + 1) as u64),
                    BenchStep::Wait(STEP_SETTLE_MS),
                ];
                assert(round.drop_last().drop_last() =~= open_and_wait);
                lemma_script_ms_of_repeated(open, extra_tabs(n));
                lemma_script_ms_of_repeated(round, TAB_CREATE_AT_ROUNDS as nat);
                lemma_script_ms_of_concat(opens, settle_and_mark);
                lemma_script_ms_of_concat(
                    opens + settle_and_mark,
                    repeated(round, TAB_CREATE_AT_ROUNDS as nat),
                );
            },
            Scenario::TabSwitchAt(n) => {
                let opens = repeated(open, extra_tabs(n));
                let tail = switches(extra_tabs(n) + 1, TAB_SWITCH_REPEATS as nat);
                lemma_script_ms_of_repeated(open, extra_tabs(n));
                lemma_script_ms_of_switches(extra_tabs(n) + 1, TAB_SWITCH_REPEATS as nat);
                lemma_script_ms_of_concat(opens, settle_and_mark);
                lemma_script_ms_of_concat(opens + settle_and_mark, tail);
            },
            Scenario::TabCountMemory(n) => {
                let opens = repeated(open, extra_tabs(n));
                lemma_script_ms_of_repeated(open, extra_tabs(n));
                lemma_script_ms_of_concat(opens, stabilize);
            },
            Scenario::TabCountMemoryHold(n) => {
                let opens = repeated(open_and_wait, extra_tabs(n));
                let tail = seq![
                    BenchStep::Wait(MEMORY_HOLD_SETTLE_MS),
                    BenchStep::Mark,
                    BenchStep::Wait(MEMORY_STABILIZE_MS),
                ];
                assert(tail.drop_last().drop_last() =~= seq![
                    BenchStep::Wait(MEMORY_HOLD_SETTLE_MS),
                ]);
                assert(tail.drop_last().drop_last().drop_last() =~= Seq::empty());
                lemma_script_ms_of_repeated(open_and_wait, extra_tabs(n));
                lemma_script_ms_of_concat(opens, tail);
            },
            _ => {},
        }
    }
    let step: u64 = PER_STEP_OVERHEAD_MS;
    let settled: u64 = PER_STEP_OVERHEAD_MS + STEP_SETTLE_MS;
    let switched: u64 = PER_STEP_OVERHEAD_MS + SWITCH_SETTLE_MS;
    match scenario {
        Scenario::ColdStartup | Scenario::WarmStartup | Scenario::FirstPageLoad => None,
        Scenario::Navigation => Some(NAVIGATION_STEPS as u64 * settled),
        Scenario::TabCreate => Some(TAB_CREATE_COUNT as u64 * settled),
        Scenario::TabSwitch => Some(
            TAB_SWITCH_EXTRA_TABS as u64 * step + STEP_SETTLE_MS + TAB_SWITCH_REPEATS as u64
                * switched,
        ),
        Scenario::TabResume => Some(
            TAB_SWITCH_EXTRA_TABS as u64 * step + STEP_SETTLE_MS + TAB_RESUME_ROUNDS as u64 * (
            switched + settled),
        ),
        Scenario::BackgroundCpu => Some(step + MEMORY_STABILIZE_MS),
        Scenario::TabCreateAt(n) => Some(
            extra(n) as u64 * step + STEP_SETTLE_MS + TAB_CREATE_AT_ROUNDS as u64 * (settled + settled),
        ),
        Scenario::TabSwitchAt(n) => Some(
            extra(n) as u64 * step + STEP_SETTLE_MS + TAB_SWITCH_REPEATS as u64 * switched,
        ),
        Scenario::TabCountMemory(n) => Some(extra(n) as u64 * step + MEMORY_STABILIZE_MS),
        Scenario::TabCountMemoryHold(n) => Some(
            extra(n) as u64 * settled + MEMORY_HOLD_SETTLE_MS + MEMORY_STABILIZE_MS,
        ),
    }
}

/// The time, in seconds, that a trial of a scenario is given: that of a launch,
/// and where it runs a script that of the script and of the exit.
pub open spec fn timeout_secs(scenario: Scenario) -> nat {
    match body_of(scenario) {
        Some(steps) => script_ms(steps) / 1000 + STARTUP_DEFAULT_SECS as nat
            + TEARDOWN_BUFFER_SECS as nat,
        None => STARTUP_DEFAULT_SECS as nat,
    }
}

/// The time, in seconds, that a trial of a scenario is given.
pub fn recommended_timeout_secs(scenario: Scenario) -> (r: u64)
    ensures
        r == timeout_secs(scenario),
{
    match body_ms(scenario) {
        Some(ms) => ms / 1000 + STARTUP_DEFAULT_SECS + TEARDOWN_BUFFER_SECS,
        None => STARTUP_DEFAULT_SECS,
    }
}

/// How often memory is sampled, in milliseconds, where the default is too
/// seldom: with the tabs of a `tabs_N` scenario open, often enough for
/// [`TARGET_STABILIZED_RSS_SAMPLES`] samples in the pause at its end.
pub fn recommended_rss_interval_ms(scenario: Scenario) -> (r: Option<u64>)
    ensures
        r == (if scenario is TabCountMemory {
            Some((MEMORY_STABILIZE_MS / TARGET_STABILIZED_RSS_SAMPLES) as u64)
        } else {
            None
        }),
{
    match scenario {
        Scenario::TabCountMemory(_) => Some(MEMORY_STABILIZE_MS / TARGET_STABILIZED_RSS_SAMPLES),
        _ => None,
    }
}

// ---------------------------------------------------------------------------
// Laws

/// A script ends with `quit`.
pub proof fn a_script_ends_with_quit(scenario: Scenario, url: Seq<char>)
    ensures
        bench_script(scenario, url) matches Some(t) ==> "quit\n"@.is_suffix_of(t),
{
    if let Some(steps) = body_of(scenario) {
        reveal_strlit("quit");
        reveal_strlit("\n");
        reveal_strlit("quit\n");
        let all = steps.push(BenchStep::Quit);
        assert(all.drop_last() =~= steps);
        let t = script_text(all, url);
        assert("quit"@ + "\n"@ =~= "quit\n"@);
        assert(t == script_text(steps, url) + ("quit"@ + "\n"@));
        assert(t.subrange(t.len() - 5, t.len() as int) =~= "quit\n"@);
    }
}

/// The time that a trial is given is longer than its script takes.
pub proof fn a_timeout_outlasts_the_script(scenario: Scenario)
    ensures
        body_of(scenario) matches Some(steps) ==> timeout_secs(scenario) * 1000 > script_ms(steps),
        timeout_secs(scenario) >= STARTUP_DEFAULT_SECS,
{
}

/// With more tabs, a memory scenario is given at least as much time.
pub proof fn a_timeout_grows_with_the_tabs(m: u32, n: u32)
    requires
        m <= n,
    ensures
        timeout_secs(Scenario::TabCountMemory(m)) <= timeout_secs(Scenario::TabCountMemory(n)),
{
    lemma_memory_script_ms(m);
    lemma_memory_script_ms(n);
}

proof fn lemma_memory_script_ms(n: u32)
    ensures
        script_ms(body_of(Scenario::TabCountMemory(n))->0) == extra_tabs(n) * PER_STEP_OVERHEAD_MS
            + MEMORY_STABILIZE_MS,
{
    reveal_with_fuel(script_ms, 3);
    let open = seq![BenchStep::Open];
    let stabilize = seq![BenchStep::Wait(MEMORY_STABILIZE_MS)];
    assert(open.drop_last() =~= Seq::empty());
    assert(stabilize.drop_last() =~= Seq::empty());
    lemma_script_ms_of_repeated(open, extra_tabs(n));
    lemma_script_ms_of_concat(repeated(open, extra_tabs(n)), stabilize);
}

/// Whether `s` holds no white space.
pub open spec fn has_no_white_space(s: Seq<char>) -> bool {
    forall|i: int| 0 <= i < s.len() ==> !text::is_white_space(#[trigger] s[i])
}

/// The argument of the line of a step.
pub open spec fn step_argument(step: BenchStep, url: Seq<char>) -> Seq<char> {
    match step {
        BenchStep::Open => url,
        BenchStep::OpenIdle => url + "?idle=1"@,
        BenchStep::Navigate(k) => url + "?velox-bench-step="@ + text::decimal(k as nat),
        BenchStep::Switch(i) => text::decimal(i as nat),
        BenchStep::Close(i) => text::decimal(i as nat),
        BenchStep::Wait(ms) => text::decimal(ms as nat),
        BenchStep::Suspend(i) => text::decimal(i as nat),
        BenchStep::Mark | BenchStep::Quit => Seq::empty(),
    }
}

/// The command that a step stands for.
pub open spec fn step_command(step: BenchStep, url: Seq<char>) -> CommandModel {
    let target = navigation::normalized(step_argument(step, url));
    match step {
        BenchStep::Open | BenchStep::OpenIdle => CommandModel::Open(target->0),
        BenchStep::Navigate(_) => CommandModel::Navigate(target->0),
        BenchStep::Switch(i) => CommandModel::Switch(i as nat),
        BenchStep::Close(i) => CommandModel::Close(i as nat),
        BenchStep::Wait(ms) => CommandModel::Wait(ms as nat),
        BenchStep::Suspend(i) => CommandModel::Suspend(i as nat),
        BenchStep::Mark => CommandModel::Mark,
        BenchStep::Quit => CommandModel::Quit,
    }
}

/// Whether a step can be read back: the URL that it names normalizes, a position
/// fits a `usize`, and a wait is not too long.
pub open spec fn is_readable(step: BenchStep, url: Seq<char>) -> bool {
    match step {
        BenchStep::Open | BenchStep::OpenIdle | BenchStep::Navigate(_) => navigation::normalized(
            step_argument(step, url),
        ) is Some,
        BenchStep::Switch(i) => i <= usize::MAX,
        BenchStep::Close(i) => i <= usize::MAX,
        BenchStep::Wait(ms) => ms <= MAX_WAIT_MS,
        BenchStep::Suspend(i) => i <= usize::MAX,
        BenchStep::Mark | BenchStep::Quit => true,
    }
}

/// A script reads back as the steps that it was written from, for a URL without
/// white space.
pub proof fn a_script_reads_back(steps: Seq<BenchStep>, url: Seq<char>)
    requires
        url.len() > 0,
        has_no_white_space(url),
        all_readable(steps, url),
    ensures
        commands_of(text::lines(script_text(steps, url))) == Ok::<Seq<CommandModel>, ErrorModel>(
            steps.map_values(|s: BenchStep| step_command(s, url)),
        ),
{
    lemma_script_lines(steps, url);
    lemma_commands_of_steps(steps, url);
}

/// Whether every step of a script can be read back.
pub open spec fn all_readable(steps: Seq<BenchStep>, url: Seq<char>) -> bool {
    forall|i: int| 0 <= i < steps.len() ==> is_readable(#[trigger] steps[i], url)
}

/// Whether the page at `url`, and the variants of it that scenarios load, are
/// URLs that normalize.
pub open spec fn is_bench_url(url: Seq<char>) -> bool {
    &&& url.len() > 0
    &&& has_no_white_space(url)
    &&& forall|step: BenchStep|
        (step is Open || step is OpenIdle || step is Navigate) ==> navigation::normalized(
            #[trigger] step_argument(step, url),
        ) is Some
}

/// The script of every scenario reads back as its steps. The last command is
/// `quit`, and no other is.
pub proof fn every_script_reads_back(scenario: Scenario, url: Seq<char>)
    requires
        is_bench_url(url),
    ensures
        bench_script(scenario, url) matches Some(t) ==> {
            let steps = (body_of(scenario)->0).push(BenchStep::Quit);
            let commands = steps.map_values(|s: BenchStep| step_command(s, url));
            &&& commands_of(text::lines(t)) == Ok::<Seq<CommandModel>, ErrorModel>(commands)
            &&& forall|i: int|
                0 <= i < commands.len() ==> (#[trigger] commands[i] is Quit <==> i
                    == commands.len() - 1)
        },
{
    if let Some(body) = body_of(scenario) {
        lemma_body_is_readable(scenario, url);
        lemma_no_quit_in_body(scenario);
        a_script_reads_back(body.push(BenchStep::Quit), url);
        let steps = body.push(BenchStep::Quit);
        let commands = steps.map_values(|s: BenchStep| step_command(s, url));
        assert forall|i: int| 0 <= i < commands.len() implies (#[trigger] commands[i] is Quit <==> i
            == commands.len() - 1) by {
            assert(commands[i] == step_command(steps[i], url));
            if i < body.len() {
                assert(steps[i] == body[i]);
            }
        }
    }
}

/// What some steps have in common.
pub enum StepKind {
    Open,
    Switch,
    Navigate,
    Mark,
}

/// Whether a step is of a kind.
pub open spec fn is_of(step: BenchStep, kind: StepKind) -> bool {
    match kind {
        StepKind::Open => step is Open,
        StepKind::Switch => step is Switch,
        StepKind::Navigate => step is Navigate,
        StepKind::Mark => step is Mark,
    }
}

/// How many of some steps are of a kind.
pub open spec fn count_of(steps: Seq<BenchStep>, kind: StepKind) -> nat
    decreases steps.len(),
{
    if steps.len() == 0 {
        0
    } else {
        count_of(steps.drop_last(), kind) + (if is_of(steps.last(), kind) {
            1nat
        } else {
            0
        })
    }
}

/// The scenarios that are about tabs open as many as they say, and switch only
/// between those. Each page of the navigation scenario is another one.
pub proof fn a_script_does_what_its_scenario_says(scenario: Scenario)
    ensures
        body_of(scenario) matches Some(steps) ==> {
            let opened = count_of(steps, StepKind::Open);
            let switched = count_of(steps, StepKind::Switch);
            let navigated = count_of(steps, StepKind::Navigate);
            &&& scenario matches Scenario::TabCountMemory(n) ==> opened == extra_tabs(n)
            &&& scenario matches Scenario::TabCountMemoryHold(n) ==> opened == extra_tabs(n)
            &&& scenario is TabCreate ==> opened == TAB_CREATE_COUNT
            &&& scenario is TabSwitch ==> opened == TAB_SWITCH_EXTRA_TABS && switched
                == TAB_SWITCH_REPEATS && forall|i: int|
                0 <= i < steps.len() ==> (#[trigger] steps[i] matches BenchStep::Switch(t) ==> t
                    <= TAB_SWITCH_EXTRA_TABS)
            &&& scenario is Navigation ==> navigated == NAVIGATION_STEPS && forall|i: int, j: int|
                0 <= i < j < steps.len() && #[trigger] steps[i] is Navigate
                    && #[trigger] steps[j] is Navigate ==> steps[i] != steps[j]
        },
{
    reveal_with_fuel(count_of, 5);
    let opens = StepKind::Open;
    let switching = StepKind::Switch;
    let open = seq![BenchStep::Open];
    let settle = seq![BenchStep::Wait(STEP_SETTLE_MS)];
    let stabilize = seq![BenchStep::Wait(MEMORY_STABILIZE_MS)];
    let open_and_wait = seq![BenchStep::Open, BenchStep::Wait(STEP_SETTLE_MS)];
    assert(open.drop_last() =~= Seq::empty());
    assert(settle.drop_last() =~= Seq::empty());
    assert(stabilize.drop_last() =~= Seq::empty());
    assert(open_and_wait.drop_last() =~= open);
    match scenario {
        Scenario::TabCountMemory(n) => {
            lemma_count_of_repeated(open, extra_tabs(n), opens);
            lemma_count_of_concat(repeated(open, extra_tabs(n)), stabilize, opens);
        },
        Scenario::TabCountMemoryHold(n) => {
            let tail = seq![
                BenchStep::Wait(MEMORY_HOLD_SETTLE_MS),
                BenchStep::Mark,
                BenchStep::Wait(MEMORY_STABILIZE_MS),
            ];
            assert(tail.drop_last().drop_last().drop_last() =~= Seq::empty());
            lemma_count_of_repeated(open_and_wait, extra_tabs(n), opens);
            lemma_count_of_concat(repeated(open_and_wait, extra_tabs(n)), tail, opens);
        },
        Scenario::TabCreate => {
            lemma_count_of_repeated(open_and_wait, TAB_CREATE_COUNT as nat, opens);
        },
        Scenario::TabSwitch => {
            let tabs = (TAB_SWITCH_EXTRA_TABS + 1) as nat;
            let front = repeated(open, TAB_SWITCH_EXTRA_TABS as nat);
            let tail = switches(tabs, TAB_SWITCH_REPEATS as nat);
            lemma_switches(tabs, TAB_SWITCH_REPEATS as nat);
            lemma_count_of_repeated(open, TAB_SWITCH_EXTRA_TABS as nat, opens);
            lemma_count_of_repeated(open, TAB_SWITCH_EXTRA_TABS as nat, switching);
            lemma_count_of_concat(front, settle, opens);
            lemma_count_of_concat(front, settle, switching);
            lemma_count_of_concat(front + settle, tail, opens);
            lemma_count_of_concat(front + settle, tail, switching);
            lemma_opens_only(TAB_SWITCH_EXTRA_TABS as nat);
        },
        Scenario::Navigation => {
            lemma_navigations(NAVIGATION_STEPS as nat);
        },
        _ => {},
    }
}

/// Two navigations to the same text are the same step.
pub proof fn navigations_lead_to_different_pages(url: Seq<char>, j: u64, k: u64)
    requires
        step_argument(BenchStep::Navigate(j), url) == step_argument(BenchStep::Navigate(k), url),
    ensures
        j == k,
{
    let front = url + "?velox-bench-step="@;
    let a = step_argument(BenchStep::Navigate(j), url);
    assert(a.skip(front.len() as int) =~= text::decimal(j as nat));
    assert(a.skip(front.len() as int) =~= text::decimal(k as nat));
    text::decimal_reads_back(j as nat, u64::MAX as nat);
    text::decimal_reads_back(k as nat, u64::MAX as nat);
}

/// Where a scenario has a setup, the measured phase is marked once.
pub proof fn a_setup_is_marked_once(scenario: Scenario)
    requires
        scenario is TabCreateAt || scenario is TabSwitchAt || scenario is TabCountMemoryHold,
    ensures
        body_of(scenario) matches Some(steps) && count_of(steps, StepKind::Mark) == 1,
{
    reveal_with_fuel(count_of, 5);
    let marks = StepKind::Mark;
    let open = seq![BenchStep::Open];
    let settle = seq![BenchStep::Wait(STEP_SETTLE_MS)];
    let settle_and_mark = seq![BenchStep::Wait(STEP_SETTLE_MS), BenchStep::Mark];
    let open_and_wait = seq![BenchStep::Open, BenchStep::Wait(STEP_SETTLE_MS)];
    assert(open.drop_last() =~= Seq::empty());
    assert(settle.drop_last() =~= Seq::empty());
    assert(settle_and_mark.drop_last() =~= settle);
    assert(open_and_wait.drop_last() =~= open);
    match scenario {
        Scenario::TabCreateAt(n) => {
            let front = repeated(open, extra_tabs(n));
            let round = seq![
                BenchStep::Open,
                BenchStep::Wait(STEP_SETTLE_MS),
                BenchStep::Close((extra_tabs(n) + 1) as u64),
                BenchStep::Wait(STEP_SETTLE_MS),
            ];
            assert(round.drop_last().drop_last() =~= open_and_wait);
            lemma_count_of_repeated(open, extra_tabs(n), marks);
            lemma_count_of_repeated(round, TAB_CREATE_AT_ROUNDS as nat, marks);
            lemma_count_of_concat(front, settle_and_mark, marks);
            lemma_count_of_concat(
                front + settle_and_mark,
                repeated(round, TAB_CREATE_AT_ROUNDS as nat),
                marks,
            );
        },
        Scenario::TabSwitchAt(n) => {
            let front = repeated(open, extra_tabs(n));
            let tail = switches(extra_tabs(n) + 1, TAB_SWITCH_REPEATS as nat);
            lemma_switches(extra_tabs(n) + 1, TAB_SWITCH_REPEATS as nat);
            lemma_count_of_repeated(open, extra_tabs(n), marks);
            lemma_count_of_concat(front, settle_and_mark, marks);
            lemma_count_of_concat(front + settle_and_mark, tail, marks);
        },
        Scenario::TabCountMemoryHold(n) => {
            let tail = seq![
                BenchStep::Wait(MEMORY_HOLD_SETTLE_MS),
                BenchStep::Mark,
                BenchStep::Wait(MEMORY_STABILIZE_MS),
            ];
            assert(tail.drop_last().drop_last().drop_last() =~= Seq::empty());
            lemma_count_of_repeated(open_and_wait, extra_tabs(n), marks);
            lemma_count_of_concat(repeated(open_and_wait, extra_tabs(n)), tail, marks);
        },
        _ => {},
    }
}

/// The scenario for resuming tabs switches back to each tab that it suspends.
pub proof fn a_suspended_tab_is_resumed(i: int)
    requires
        0 <= i < (body_of(Scenario::TabResume)->0).len(),
        (body_of(Scenario::TabResume)->0)[i] is Suspend,
    ensures
        ({
            let steps = body_of(Scenario::TabResume)->0;
            &&& i + 2 < steps.len()
            &&& steps[i + 1] is Wait
            &&& steps[i] matches BenchStep::Suspend(t) && steps[i + 2] == BenchStep::Switch(t)
        }),
{
    let front = repeated(seq![BenchStep::Open], TAB_SWITCH_EXTRA_TABS as nat) + seq![
        BenchStep::Wait(STEP_SETTLE_MS),
    ];
    let tail = resumes((TAB_SWITCH_EXTRA_TABS + 1) as nat, TAB_RESUME_ROUNDS as nat);
    lemma_opens_only(TAB_SWITCH_EXTRA_TABS as nat);
    let k = i - front.len();
    assert(k >= 0);
    assert(tail[k] is Suspend);
    lemma_resumes((TAB_SWITCH_EXTRA_TABS + 1) as nat, TAB_RESUME_ROUNDS as nat, k);
    assert((front + tail)[i + 1] == tail[k + 1]);
    assert((front + tail)[i + 2] == tail[k + 2]);
}

proof fn lemma_resumes(tabs: nat, n: nat, k: int)
    requires
        0 <= k < resumes(tabs, n).len(),
        resumes(tabs, n)[k] is Suspend,
    ensures
        k + 2 < resumes(tabs, n).len(),
        resumes(tabs, n)[k + 1] is Wait,
        resumes(tabs, n)[k] matches BenchStep::Suspend(t) && resumes(tabs, n)[k + 2]
            == BenchStep::Switch(t),
    decreases n,
{
    let before = resumes(tabs, (n - 1) as nat);
    if k < before.len() {
        assert(before[k] == resumes(tabs, n)[k]);
        lemma_resumes(tabs, (n - 1) as nat, k);
    }
}

proof fn lemma_opens_only(n: nat)
    ensures
        forall|i: int|
            0 <= i < repeated(seq![BenchStep::Open], n).len() ==> #[trigger] repeated(
                seq![BenchStep::Open],
                n,
            )[i] is Open,
    decreases n,
{
    if n > 0 {
        lemma_opens_only((n - 1) as nat);
    }
}

proof fn lemma_switches(tabs: nat, n: nat)
    requires
        0 < tabs <= u32::MAX + 1,
    ensures
        count_of(switches(tabs, n), StepKind::Open) == 0,
        count_of(switches(tabs, n), StepKind::Mark) == 0,
        count_of(switches(tabs, n), StepKind::Switch) == n,
        forall|i: int|
            0 <= i < switches(tabs, n).len() ==> (#[trigger] switches(tabs, n)[i] matches BenchStep::Switch(
            t) ==> t < tabs),
    decreases n,
{
    reveal_with_fuel(count_of, 3);
    if n > 0 {
        let m = (n - 1) as nat;
        lemma_switches(tabs, m);
        assert(0 <= m % tabs < tabs) by (nonlinear_arith)
            requires
                0 < tabs,
        ;
        let block = seq![
            BenchStep::Switch((m % tabs) as u64),
            BenchStep::Wait(SWITCH_SETTLE_MS),
        ];
        assert(block.drop_last() =~= seq![block[0]]);
        assert(block.drop_last().drop_last() =~= Seq::empty());
        lemma_count_of_concat(switches(tabs, m), block, StepKind::Open);
        lemma_count_of_concat(switches(tabs, m), block, StepKind::Mark);
        lemma_count_of_concat(switches(tabs, m), block, StepKind::Switch);
    }
}

proof fn lemma_navigations(n: nat)
    requires
        n <= 1000,
    ensures
        count_of(navigations(n), StepKind::Navigate) == n,
        forall|i: int|
            0 <= i < navigations(n).len() ==> (#[trigger] navigations(n)[i] matches BenchStep::Navigate(
            k) ==> k <= n),
        forall|i: int, j: int|
            0 <= i < j < navigations(n).len() && #[trigger] navigations(n)[i] is Navigate
                && #[trigger] navigations(n)[j] is Navigate ==> navigations(n)[i] != navigations(
                n,
            )[j],
    decreases n,
{
    reveal_with_fuel(count_of, 3);
    if n > 0 {
        let m = (n - 1) as nat;
        lemma_navigations(m);
        let before = navigations(m);
        let block = seq![BenchStep::Navigate(n as u64), BenchStep::Wait(STEP_SETTLE_MS)];
        assert(block.drop_last() =~= seq![block[0]]);
        assert(block.drop_last().drop_last() =~= Seq::empty());
        lemma_count_of_concat(before, block, StepKind::Navigate);
        let all = navigations(n);
        assert forall|i: int| 0 <= i < before.len() implies #[trigger] all[i] == before[i] by {}
    }
}

proof fn lemma_count_of_concat(
    a: Seq<BenchStep>,
    b: Seq<BenchStep>,
    kind: StepKind,
)
    ensures
        count_of(a + b, kind) == count_of(a, kind) + count_of(b, kind),
    decreases b.len(),
{
    if b.len() == 0 {
        assert(a + b =~= a);
    } else {
        assert((a + b).drop_last() =~= a + b.drop_last());
        lemma_count_of_concat(a, b.drop_last(), kind);
    }
}

proof fn lemma_count_of_repeated(
    block: Seq<BenchStep>,
    n: nat,
    kind: StepKind,
)
    ensures
        count_of(block, kind) == 0 ==> count_of(repeated(block, n), kind) == 0,
        count_of(block, kind) == 1 ==> count_of(repeated(block, n), kind) == n,
    decreases n,
{
    if n > 0 {
        let m = (n - 1) as nat;
        lemma_count_of_repeated(block, m, kind);
        lemma_count_of_concat(repeated(block, m), block, kind);
    }
}

/// Whether no step exits the application.
spec fn has_no_quit(steps: Seq<BenchStep>) -> bool {
    forall|i: int| 0 <= i < steps.len() ==> !(#[trigger] steps[i] is Quit)
}

proof fn lemma_no_quit_in_body(scenario: Scenario)
    ensures
        body_of(scenario) matches Some(steps) ==> has_no_quit(steps),
{
    let open = seq![BenchStep::Open];
    let open_and_wait = seq![BenchStep::Open, BenchStep::Wait(STEP_SETTLE_MS)];
    match scenario {
        Scenario::Navigation => {
            lemma_no_quit_in_rounds(1, NAVIGATION_STEPS as nat);
        },
        Scenario::TabCreate => {
            lemma_no_quit_in_repeated(open_and_wait, TAB_CREATE_COUNT as nat);
        },
        Scenario::TabSwitch => {
            lemma_no_quit_in_repeated(open, TAB_SWITCH_EXTRA_TABS as nat);
            lemma_no_quit_in_rounds((TAB_SWITCH_EXTRA_TABS + 1) as nat, TAB_SWITCH_REPEATS as nat);
        },
        Scenario::TabResume => {
            lemma_no_quit_in_repeated(open, TAB_SWITCH_EXTRA_TABS as nat);
            lemma_no_quit_in_rounds((TAB_SWITCH_EXTRA_TABS + 1) as nat, TAB_RESUME_ROUNDS as nat);
        },
        Scenario::TabCreateAt(n) => {
            let round = seq![
                BenchStep::Open,
                BenchStep::Wait(STEP_SETTLE_MS),
                BenchStep::Close((extra_tabs(n) + 1) as u64),
                BenchStep::Wait(STEP_SETTLE_MS),
            ];
            lemma_no_quit_in_repeated(open, extra_tabs(n));
            lemma_no_quit_in_repeated(round, TAB_CREATE_AT_ROUNDS as nat);
        },
        Scenario::TabSwitchAt(n) => {
            lemma_no_quit_in_repeated(open, extra_tabs(n));
            lemma_no_quit_in_rounds(extra_tabs(n) + 1, TAB_SWITCH_REPEATS as nat);
        },
        Scenario::TabCountMemory(n) => {
            lemma_no_quit_in_repeated(open, extra_tabs(n));
        },
        Scenario::TabCountMemoryHold(n) => {
            lemma_no_quit_in_repeated(open_and_wait, extra_tabs(n));
        },
        _ => {},
    }
}

proof fn lemma_no_quit_in_repeated(block: Seq<BenchStep>, n: nat)
    requires
        has_no_quit(block),
    ensures
        has_no_quit(repeated(block, n)),
    decreases n,
{
    if n > 0 {
        lemma_no_quit_in_repeated(block, (n - 1) as nat);
    }
}

proof fn lemma_no_quit_in_rounds(tabs: nat, n: nat)
    ensures
        has_no_quit(navigations(n)),
        has_no_quit(switches(tabs, n)),
        has_no_quit(resumes(tabs, n)),
    decreases n,
{
    if n > 0 {
        lemma_no_quit_in_rounds(tabs, (n - 1) as nat);
    }
}

proof fn lemma_repeated_is_readable(block: Seq<BenchStep>, n: nat, url: Seq<char>)
    requires
        all_readable(block, url),
    ensures
        all_readable(repeated(block, n), url),
    decreases n,
{
    if n > 0 {
        lemma_repeated_is_readable(block, (n - 1) as nat, url);
    }
}

proof fn lemma_navigations_are_readable(n: nat, url: Seq<char>)
    requires
        is_bench_url(url),
    ensures
        all_readable(navigations(n), url),
    decreases n,
{
    if n > 0 {
        lemma_navigations_are_readable((n - 1) as nat, url);
        assert(navigation::normalized(
            step_argument(BenchStep::Navigate(n as u64), url),
        ) is Some);
    }
}

proof fn lemma_switches_are_readable(tabs: nat, n: nat, url: Seq<char>)
    requires
        0 < tabs <= u32::MAX + 1,
    ensures
        all_readable(switches(tabs, n), url),
    decreases n,
{
    if n > 0 {
        lemma_switches_are_readable(tabs, (n - 1) as nat, url);
        assert(0 <= (n - 1) as nat % tabs < tabs) by (nonlinear_arith)
            requires
                0 < tabs,
                n > 0,
        ;
    }
}

proof fn lemma_resumes_are_readable(tabs: nat, n: nat, url: Seq<char>)
    requires
        0 < tabs <= u32::MAX + 1,
    ensures
        all_readable(resumes(tabs, n), url),
    decreases n,
{
    if n > 0 {
        lemma_resumes_are_readable(tabs, (n - 1) as nat, url);
        assert(0 <= (n - 1) as nat % tabs < tabs) by (nonlinear_arith)
            requires
                0 < tabs,
                n > 0,
        ;
    }
}

proof fn lemma_body_is_readable(scenario: Scenario, url: Seq<char>)
    requires
        is_bench_url(url),
    ensures
        body_of(scenario) matches Some(steps) ==> all_readable(steps.push(BenchStep::Quit), url),
{
    let open = seq![BenchStep::Open];
    let open_and_wait = seq![BenchStep::Open, BenchStep::Wait(STEP_SETTLE_MS)];
    assert(navigation::normalized(step_argument(BenchStep::Open, url)) is Some);
    assert(navigation::normalized(step_argument(BenchStep::OpenIdle, url)) is Some);
    match scenario {
        Scenario::Navigation => {
            lemma_navigations_are_readable(NAVIGATION_STEPS as nat, url);
        },
        Scenario::TabCreate => {
            lemma_repeated_is_readable(open_and_wait, TAB_CREATE_COUNT as nat, url);
        },
        Scenario::TabResume => {
            lemma_repeated_is_readable(open, TAB_SWITCH_EXTRA_TABS as nat, url);
            lemma_resumes_are_readable(
                (TAB_SWITCH_EXTRA_TABS + 1) as nat,
                TAB_RESUME_ROUNDS as nat,
                url,
            );
        },
        Scenario::TabSwitch => {
            lemma_repeated_is_readable(open, TAB_SWITCH_EXTRA_TABS as nat, url);
            lemma_switches_are_readable(
                (TAB_SWITCH_EXTRA_TABS + 1) as nat,
                TAB_SWITCH_REPEATS as nat,
                url,
            );
        },
        Scenario::TabCreateAt(n) => {
            let round = seq![
                BenchStep::Open,
                BenchStep::Wait(STEP_SETTLE_MS),
                BenchStep::Close((extra_tabs(n) + 1) as u64),
                BenchStep::Wait(STEP_SETTLE_MS),
            ];
            lemma_repeated_is_readable(open, extra_tabs(n), url);
            lemma_repeated_is_readable(round, TAB_CREATE_AT_ROUNDS as nat, url);
        },
        Scenario::TabSwitchAt(n) => {
            lemma_repeated_is_readable(open, extra_tabs(n), url);
            lemma_switches_are_readable(extra_tabs(n) + 1, TAB_SWITCH_REPEATS as nat, url);
        },
        Scenario::TabCountMemory(n) => {
            lemma_repeated_is_readable(open, extra_tabs(n), url);
        },
        Scenario::TabCountMemoryHold(n) => {
            lemma_repeated_is_readable(open_and_wait, extra_tabs(n), url);
        },
        _ => {},
    }
}

spec fn step_lines(steps: Seq<BenchStep>, url: Seq<char>) -> Seq<Seq<char>> {
    steps.map_values(|s: BenchStep| step_line(s, url))
}

spec fn step_keyword(step: BenchStep) -> Seq<char> {
    match step {
        BenchStep::Open | BenchStep::OpenIdle => "open"@,
        BenchStep::Navigate(_) => "navigate"@,
        BenchStep::Switch(_) => "switch"@,
        BenchStep::Close(_) => "close"@,
        BenchStep::Wait(_) => "wait"@,
        BenchStep::Suspend(_) => "suspend"@,
        BenchStep::Mark => "mark"@,
        BenchStep::Quit => "quit"@,
    }
}

proof fn lemma_decimal_has_no_white_space(n: nat)
    ensures
        has_no_white_space(text::decimal(n)),
        text::decimal(n).len() > 0,
{
    text::lemma_decimal_digits(n);
    assert forall|i: int| 0 <= i < text::decimal(n).len() implies !text::is_white_space(
        #[trigger] text::decimal(n)[i],
    ) by {
        assert(text::is_digit(text::decimal(n)[i]));
    }
}

proof fn lemma_step_argument(step: BenchStep, url: Seq<char>)
    requires
        url.len() > 0,
        has_no_white_space(url),
    ensures
        has_no_white_space(step_argument(step, url)),
        step_argument(step, url).len() > 0 || step is Mark || step is Quit,
{
    reveal_strlit("?idle=1");
    reveal_strlit("?velox-bench-step=");
    match step {
        BenchStep::Navigate(k) => {
            lemma_decimal_has_no_white_space(k as nat);
            let front = url + "?velox-bench-step="@;
            assert(has_no_white_space(front));
        },
        BenchStep::Switch(i) => {
            lemma_decimal_has_no_white_space(i as nat);
        },
        BenchStep::Close(i) => {
            lemma_decimal_has_no_white_space(i as nat);
        },
        BenchStep::Wait(ms) => {
            lemma_decimal_has_no_white_space(ms as nat);
        },
        BenchStep::Suspend(i) => {
            lemma_decimal_has_no_white_space(i as nat);
        },
        _ => {},
    }
}

proof fn lemma_step_line(step: BenchStep, url: Seq<char>)
    ensures
        !(step is Mark || step is Quit) ==> step_line(step, url) == step_keyword(step) + seq![' '] + step_argument(
            step,
            url,
        ),
        has_no_white_space(step_keyword(step)),
        step_keyword(step).len() > 0,
        step_keyword(step)[0] != '#',
{
    reveal_strlit("open");
    reveal_strlit("open ");
    reveal_strlit("navigate");
    reveal_strlit("navigate ");
    reveal_strlit("switch");
    reveal_strlit("switch ");
    reveal_strlit("close");
    reveal_strlit("close ");
    reveal_strlit("wait");
    reveal_strlit("wait ");
    reveal_strlit("suspend");
    reveal_strlit("suspend ");
    reveal_strlit("mark");
    reveal_strlit("quit");
    assert("open "@ =~= "open"@ + seq![' ']);
    assert("navigate "@ =~= "navigate"@ + seq![' ']);
    assert("switch "@ =~= "switch"@ + seq![' ']);
    assert("close "@ =~= "close"@ + seq![' ']);
    assert("wait "@ =~= "wait"@ + seq![' ']);
    assert("suspend "@ =~= "suspend"@ + seq![' ']);
}

proof fn lemma_first_white_space(s: Seq<char>, from: int, n: int)
    requires
        0 <= from <= n <= s.len(),
        forall|i: int| from <= i < n ==> !text::is_white_space(#[trigger] s[i]),
        n < s.len() ==> text::is_white_space(s[n]),
    ensures
        first_white_space(s, from) == n,
    decreases n - from,
{
    if from < n {
        assert(!text::is_white_space(s[from]));
        lemma_first_white_space(s, from + 1, n);
    }
}

/// How the line of a step reads.
proof fn lemma_line_reads_back(step: BenchStep, url: Seq<char>)
    requires
        url.len() > 0,
        has_no_white_space(url),
    ensures
        text::trimmed(step_line(step, url)) == step_line(step, url),
        !is_no_command(step_line(step, url)),
        keyword_of(step_line(step, url)) == step_keyword(step),
        argument_of(step_line(step, url)) == step_argument(step, url),
        forall|i: int|
            0 <= i < step_line(step, url).len() ==> #[trigger] step_line(step, url)[i] != '\n'
                && step_line(step, url)[i] != '\r',
{
    lemma_step_line(step, url);
    lemma_step_argument(step, url);
    let line = step_line(step, url);
    let keyword = step_keyword(step);
    let argument = step_argument(step, url);
    assert(line[0] == keyword[0]);
    if step is Mark || step is Quit {
        lemma_first_white_space(line, 0, line.len() as int);
        assert(line.take(line.len() as int) =~= line);
    } else {
        assert forall|i: int| 0 <= i < keyword.len() implies !text::is_white_space(
            #[trigger] line[i],
        ) by {
            assert(line[i] == keyword[i]);
        }
        assert(line[keyword.len() as int] == ' ');
        lemma_first_white_space(line, 0, keyword.len() as int);
        assert(line.take(keyword.len() as int) =~= keyword);
        assert(line.skip(keyword.len() as int + 1) =~= argument);
        assert(line.last() == argument.last());
        assert(!text::is_white_space(argument.last()) && !text::is_white_space(argument.first()));
        assert forall|i: int| 0 <= i < line.len() implies #[trigger] line[i] != '\n' && line[i]
            != '\r' by {
            if i < keyword.len() {
                assert(line[i] == keyword[i]);
            } else if i > keyword.len() {
                assert(line[i] == argument[i - keyword.len() - 1]);
            }
        }
    }
}

proof fn lemma_script_lines(steps: Seq<BenchStep>, url: Seq<char>)
    requires
        url.len() > 0,
        has_no_white_space(url),
    ensures
        text::lines(script_text(steps, url)) == step_lines(steps, url),
        steps.len() > 0 ==> script_text(steps, url).len() > 0 && script_text(steps, url).last()
            == '\n',
    decreases steps.len(),
{
    reveal_strlit("\n");
    if steps.len() == 0 {
        assert(text::lines(script_text(steps, url)) =~= step_lines(steps, url));
    } else {
        let before = steps.drop_last();
        lemma_script_lines(before, url);
        let line = step_line(steps.last(), url);
        lemma_line_reads_back(steps.last(), url);
        assert("\n"@ =~= seq!['\n']);
        text::lemma_line_of_one(line);
        text::lemma_lines_of_concat(script_text(before, url), line + "\n"@);
        assert(step_lines(steps, url) =~= step_lines(before, url).push(line));
    }
}

proof fn lemma_commands_of_steps(steps: Seq<BenchStep>, url: Seq<char>)
    requires
        url.len() > 0,
        has_no_white_space(url),
        all_readable(steps, url),
    ensures
        commands_of(step_lines(steps, url)) == Ok::<Seq<CommandModel>, ErrorModel>(
            steps.map_values(|s: BenchStep| step_command(s, url)),
        ),
    decreases steps.len(),
{
    let lines = step_lines(steps, url);
    let commands = steps.map_values(|s: BenchStep| step_command(s, url));
    if steps.len() == 0 {
        assert(commands =~= Seq::empty());
    } else {
        let before = steps.drop_last();
        let step = steps.last();
        lemma_commands_of_steps(before, url);
        assert(lines.drop_last() =~= step_lines(before, url));
        assert(lines.last() == step_line(step, url));
        assert(is_readable(steps[steps.len() - 1], url));
        lemma_line_reads_back(step, url);
        lemma_command_of_step(lines.len(), step, url);
        assert(commands =~= before.map_values(|s: BenchStep| step_command(s, url)).push(
            step_command(step, url),
        ));
    }
}

proof fn lemma_command_of_step(line: nat, step: BenchStep, url: Seq<char>)
    requires
        url.len() > 0,
        has_no_white_space(url),
        is_readable(step, url),
    ensures
        command_of(line, step_line(step, url)) == Ok::<CommandModel, ErrorModel>(
            step_command(step, url),
        ),
{
    lemma_line_reads_back(step, url);
    lemma_step_argument(step, url);
    reveal_strlit("open");
    reveal_strlit("navigate");
    reveal_strlit("switch");
    reveal_strlit("close");
    reveal_strlit("wait");
    reveal_strlit("suspend");
    reveal_strlit("mark");
    reveal_strlit("quit");
    assert("open"@[0] == 'o' && "navigate"@[0] == 'n' && "switch"@[0] == 's' && "close"@[0] == 'c'
        && "wait"@[0] == 'w' && "mark"@[0] == 'm' && "quit"@[0] == 'q');
    assert("switch"@[1] == 'w' && "suspend"@[1] == 'u');
    match step {
        BenchStep::Switch(i) => {
            text::decimal_reads_back(i as nat, usize::MAX as nat);
        },
        BenchStep::Close(i) => {
            text::decimal_reads_back(i as nat, usize::MAX as nat);
        },
        BenchStep::Wait(ms) => {
            text::decimal_reads_back(ms as nat, u64::MAX as nat);
        },
        BenchStep::Suspend(i) => {
            text::decimal_reads_back(i as nat, usize::MAX as nat);
        },
        _ => {},
    }
}

/// A line is a keyword, and behind the first white space its argument, without the
/// white space around it.
pub proof fn a_line_is_a_keyword_and_an_argument(
    keyword: Seq<char>,
    blank: char,
    front: Seq<char>,
    argument: Seq<char>,
    back: Seq<char>,
)
    requires
        has_no_white_space(keyword),
        text::is_white_space(blank),
        text::is_blank(front),
        text::is_blank(back),
        argument.len() > 0,
        !text::is_white_space(argument.first()),
        !text::is_white_space(argument.last()),
    ensures
        keyword_of(keyword + seq![blank] + (front + argument + back)) == keyword,
        argument_of(keyword + seq![blank] + (front + argument + back)) == argument,
        keyword_of(keyword) == keyword,
        argument_of(keyword) == Seq::<char>::empty(),
{
    let line = keyword + seq![blank] + (front + argument + back);
    let n = keyword.len() as int;
    assert forall|i: int| 0 <= i < n implies !text::is_white_space(#[trigger] line[i]) by {
        assert(!text::is_white_space(keyword[i]));
    }
    assert(line[n] == blank);
    lemma_first_white_space(line, 0, n);
    lemma_first_white_space(keyword, 0, n);
    assert(line.take(n) =~= keyword);
    assert(line.skip(n + 1) =~= front + argument + back);
    assert(keyword.take(n) =~= keyword);
    text::trimming_finds_what_is_inside(front, argument, back);
}

/// Each keyword with a number that can be counted is the command of that name with that
/// number; a wait may take two minutes and no longer.
pub proof fn a_number_is_what_its_keyword_takes(line: nat, n: nat)
    requires
        n <= usize::MAX,
    ensures
        command_of(line, "switch"@ + seq![' '] + text::decimal(n)) == Ok::<CommandModel, ErrorModel>(
            CommandModel::Switch(n),
        ),
        command_of(line, "close"@ + seq![' '] + text::decimal(n)) == Ok::<CommandModel, ErrorModel>(
            CommandModel::Close(n),
        ),
        command_of(line, "suspend"@ + seq![' '] + text::decimal(n)) == Ok::<
            CommandModel,
            ErrorModel,
        >(CommandModel::Suspend(n)),
        n <= 120_000 ==> command_of(line, "wait"@ + seq![' '] + text::decimal(n)) == Ok::<
            CommandModel,
            ErrorModel,
        >(CommandModel::Wait(n)),
        n > 120_000 ==> (command_of(line, "wait"@ + seq![' '] + text::decimal(n)) matches Err(e)
            && e.line == line),
{
    lemma_different_keywords();
    text::lemma_decimal_digits(n);
    lemma_decimal_has_no_white_space(n);
    text::decimal_reads_back(n, usize::MAX as nat);
    text::decimal_reads_back(n, u64::MAX as nat);
    let digits = text::decimal(n);
    let nothing = Seq::<char>::empty();
    assert(!text::is_white_space(digits[0]));
    assert(!text::is_white_space(digits[digits.len() - 1]));
    assert(nothing + digits + nothing =~= digits);
    a_line_is_a_keyword_and_an_argument("switch"@, ' ', nothing, digits, nothing);
    a_line_is_a_keyword_and_an_argument("close"@, ' ', nothing, digits, nothing);
    a_line_is_a_keyword_and_an_argument("suspend"@, ' ', nothing, digits, nothing);
    a_line_is_a_keyword_and_an_argument("wait"@, ' ', nothing, digits, nothing);
}

/// A page is opened, or navigated to, at the URL that the argument normalizes to; where
/// there is none, or no argument, the line is in error.
pub proof fn a_page_is_loaded_where_it_normalizes(line: nat, page: Seq<char>)
    requires
        page.len() > 0,
        !text::is_white_space(page.first()),
        !text::is_white_space(page.last()),
    ensures
        match navigation::normalized(page) {
            Some(url) => command_of(line, "open"@ + seq![' '] + page) == Ok::<
                CommandModel,
                ErrorModel,
            >(CommandModel::Open(url)) && command_of(line, "navigate"@ + seq![' '] + page) == Ok::<
                CommandModel,
                ErrorModel,
            >(CommandModel::Navigate(url)),
            None => (command_of(line, "open"@ + seq![' '] + page) matches Err(e) && e.line == line)
                && (command_of(line, "navigate"@ + seq![' '] + page) matches Err(e) && e.line
                == line),
        },
        command_of(line, "open"@) matches Err(e) && e.line == line,
        command_of(line, "navigate"@) matches Err(e) && e.line == line,
{
    lemma_different_keywords();
    let nothing = Seq::<char>::empty();
    assert(nothing + page + nothing =~= page);
    a_line_is_a_keyword_and_an_argument("open"@, ' ', nothing, page, nothing);
    a_line_is_a_keyword_and_an_argument("navigate"@, ' ', nothing, page, nothing);
}

/// Marking and quitting take no argument, the other commands take one, and there are no
/// others.
pub proof fn what_takes_no_argument_gets_none(line: nat, argument: Seq<char>, keyword: Seq<char>)
    requires
        argument.len() > 0,
        !text::is_white_space(argument.first()),
        !text::is_white_space(argument.last()),
        has_no_white_space(keyword),
    ensures
        command_of(line, "mark"@) == Ok::<CommandModel, ErrorModel>(CommandModel::Mark),
        command_of(line, "quit"@) == Ok::<CommandModel, ErrorModel>(CommandModel::Quit),
        command_of(line, "mark"@ + seq![' '] + argument) is Err,
        command_of(line, "quit"@ + seq![' '] + argument) is Err,
        command_of(line, "switch"@) is Err,
        command_of(line, "close"@) is Err,
        command_of(line, "suspend"@) is Err,
        command_of(line, "wait"@) is Err,
        command_of(line, keyword) is Ok ==> keyword == "mark"@ || keyword == "quit"@,
        command_of(line, keyword + seq![' '] + argument) is Ok ==> keyword == "open"@ || keyword
            == "navigate"@ || keyword == "switch"@ || keyword == "close"@ || keyword == "wait"@
            || keyword == "suspend"@,
        command_of(line, keyword) matches Err(e) ==> e.line == line,
        command_of(line, keyword + seq![' '] + argument) matches Err(e) ==> e.line == line,
{
    lemma_different_keywords();
    let nothing = Seq::<char>::empty();
    assert(nothing + argument + nothing =~= argument);
    a_line_is_a_keyword_and_an_argument("mark"@, ' ', nothing, argument, nothing);
    a_line_is_a_keyword_and_an_argument("quit"@, ' ', nothing, argument, nothing);
    a_line_is_a_keyword_and_an_argument("switch"@, ' ', nothing, argument, nothing);
    a_line_is_a_keyword_and_an_argument("close"@, ' ', nothing, argument, nothing);
    a_line_is_a_keyword_and_an_argument("suspend"@, ' ', nothing, argument, nothing);
    a_line_is_a_keyword_and_an_argument("wait"@, ' ', nothing, argument, nothing);
    a_line_is_a_keyword_and_an_argument(keyword, ' ', nothing, argument, nothing);
}

proof fn lemma_different_keywords()
    ensures
        has_no_white_space("open"@),
        has_no_white_space("navigate"@),
        has_no_white_space("switch"@),
        has_no_white_space("close"@),
        has_no_white_space("wait"@),
        has_no_white_space("suspend"@),
        has_no_white_space("mark"@),
        has_no_white_space("quit"@),
        "open"@[0] == 'o' && "navigate"@[0] == 'n' && "close"@[0] == 'c' && "wait"@[0] == 'w'
            && "mark"@[0] == 'm' && "quit"@[0] == 'q',
        "switch"@[0] == 's' && "switch"@[1] == 'w' && "suspend"@[0] == 's' && "suspend"@[1] == 'u',
{
    reveal_strlit("open");
    reveal_strlit("navigate");
    reveal_strlit("switch");
    reveal_strlit("close");
    reveal_strlit("wait");
    reveal_strlit("suspend");
    reveal_strlit("mark");
    reveal_strlit("quit");
}

/// A script is read line by line: blank lines and those that start with `#` say
/// nothing, each other line adds its command, and the first line in error is reported
/// with its number, counted from 1.
pub proof fn lines_are_read_one_by_one(
    lines: Seq<Seq<char>>,
    front: Seq<char>,
    content: Seq<char>,
    back: Seq<char>,
)
    requires
        text::is_blank(front),
        text::is_blank(back),
        content.len() > 0,
        !text::is_white_space(content.first()),
        !text::is_white_space(content.last()),
    ensures
        commands_of(Seq::empty()) == Ok::<Seq<CommandModel>, ErrorModel>(Seq::empty()),
        commands_of(lines.push(front)) == commands_of(lines),
        content[0] == '#' ==> commands_of(lines.push(front + content + back)) == commands_of(lines),
        content[0] != '#' ==> commands_of(lines.push(front + content + back)) == match (
            commands_of(lines),
            command_of(lines.len() + 1, content),
        ) {
            (Err(e), _) => Err::<Seq<CommandModel>, ErrorModel>(e),
            (Ok(before), Ok(command)) => Ok(before.push(command)),
            (Ok(_), Err(e)) => Err(e),
        },
{
    let line = front + content + back;
    assert(lines.push(line).drop_last() =~= lines);
    assert(lines.push(front).drop_last() =~= lines);
    text::trimming_finds_what_is_inside(front, content, back);
    let (i, j) = text::lemma_trimmed_is_part(front);
    text::lemma_trimmed_ends(front);
    if text::trimmed(front).len() > 0 {
        assert(text::trimmed(front).first() == front[i]);
    }
}

proof fn lemma_script_ms_of_push(steps: Seq<BenchStep>, step: BenchStep)
    ensures
        script_ms(Seq::empty()) == 0,
        script_ms(steps.push(step)) == script_ms(steps) + step_ms(step),
{
    assert(steps.push(step).drop_last() =~= steps);
}

proof fn lemma_script_ms_of_two(a: BenchStep, b: BenchStep)
    ensures
        script_ms(seq![a]) == step_ms(a),
        script_ms(seq![a, b]) == step_ms(a) + step_ms(b),
{
    lemma_script_ms_of_push(Seq::empty(), a);
    lemma_script_ms_of_push(seq![a], b);
    assert(Seq::empty().push(a) =~= seq![a]);
    assert(seq![a].push(b) =~= seq![a, b]);
}

/// What the scripts take, about: a quarter of a second for each step, and the pauses
/// between them, with as many tabs and rounds as each scenario has.
pub proof fn a_script_takes_this_long()
    ensures
        script_ms(body_of(Scenario::Navigation)->0) == 5 * (250 + 300),
        script_ms(body_of(Scenario::TabCreate)->0) == 5 * (250 + 300),
        script_ms(body_of(Scenario::TabSwitch)->0) == 4 * 250 + 300 + 8 * (250 + 200),
        script_ms(body_of(Scenario::TabResume)->0) == 4 * 250 + 300 + 8 * (250 + 200 + 250 + 300),
        script_ms(body_of(Scenario::BackgroundCpu)->0) == 250 + 3_000,
{
    let open = seq![BenchStep::Open];
    let settle = seq![BenchStep::Wait(STEP_SETTLE_MS)];
    let open_and_wait = seq![BenchStep::Open, BenchStep::Wait(STEP_SETTLE_MS)];
    lemma_script_ms_of_two(BenchStep::Open, BenchStep::Wait(STEP_SETTLE_MS));
    lemma_script_ms_of_two(BenchStep::Wait(STEP_SETTLE_MS), BenchStep::Mark);
    lemma_script_ms_of_two(BenchStep::OpenIdle, BenchStep::Wait(MEMORY_STABILIZE_MS));
    lemma_script_ms_of_navigations(5);
    lemma_script_ms_of_repeated(open_and_wait, 5);
    lemma_script_ms_of_repeated(open, 4);
    lemma_script_ms_of_concat(repeated(open, 4), settle);
    lemma_script_ms_of_concat(repeated(open, 4) + settle, switches(5, 8));
    lemma_script_ms_of_concat(repeated(open, 4) + settle, resumes(5, 8));
    lemma_script_ms_of_switches(5, 8);
    lemma_script_ms_of_resumes(5, 8);
}

/// Where a scenario has a number of tabs, its script takes a quarter of a second more
/// for each tab beside the first, and the pause after it where there is one.
pub proof fn each_tab_takes_its_time(n: u32)
    requires
        n > 0,
    ensures
        script_ms(body_of(Scenario::TabCreateAt(n))->0) == (n - 1) * 250 + 300 + 8 * (250 + 300
            + 250 + 300),
        script_ms(body_of(Scenario::TabSwitchAt(n))->0) == (n - 1) * 250 + 300 + 8 * (250 + 200),
        script_ms(body_of(Scenario::TabCountMemory(n))->0) == (n - 1) * 250 + 3_000,
        script_ms(body_of(Scenario::TabCountMemoryHold(n))->0) == (n - 1) * (250 + 300) + 12_000
            + 3_000,
{
    lemma_memory_script_ms(n);
    lemma_rounds_script_ms(n);
    let e = extra_tabs(n);
    let open_and_wait = seq![BenchStep::Open, BenchStep::Wait(STEP_SETTLE_MS)];
    lemma_script_ms_of_two(BenchStep::Open, BenchStep::Wait(STEP_SETTLE_MS));
    lemma_script_ms_of_repeated(open_and_wait, e);
    let marked = seq![BenchStep::Wait(MEMORY_HOLD_SETTLE_MS), BenchStep::Mark];
    let tail = seq![
        BenchStep::Wait(MEMORY_HOLD_SETTLE_MS),
        BenchStep::Mark,
        BenchStep::Wait(MEMORY_STABILIZE_MS),
    ];
    lemma_script_ms_of_two(BenchStep::Wait(MEMORY_HOLD_SETTLE_MS), BenchStep::Mark);
    lemma_script_ms_of_push(marked, BenchStep::Wait(MEMORY_STABILIZE_MS));
    assert(marked.push(BenchStep::Wait(MEMORY_STABILIZE_MS)) =~= tail);
    lemma_script_ms_of_concat(repeated(open_and_wait, e), tail);
}

proof fn lemma_rounds_script_ms(n: u32)
    requires
        n > 0,
    ensures
        script_ms(body_of(Scenario::TabCreateAt(n))->0) == (n - 1) * 250 + 300 + 8 * (250 + 300
            + 250 + 300),
        script_ms(body_of(Scenario::TabSwitchAt(n))->0) == (n - 1) * 250 + 300 + 8 * (250 + 200),
{
    let e = extra_tabs(n);
    let open = seq![BenchStep::Open];
    let front = repeated(open, e);
    let settle_and_mark = seq![BenchStep::Wait(STEP_SETTLE_MS), BenchStep::Mark];
    let open_and_wait = seq![BenchStep::Open, BenchStep::Wait(STEP_SETTLE_MS)];
    let close = BenchStep::Close((e + 1) as u64);
    let round = seq![
        BenchStep::Open,
        BenchStep::Wait(STEP_SETTLE_MS),
        close,
        BenchStep::Wait(STEP_SETTLE_MS),
    ];
    lemma_script_ms_of_two(BenchStep::Open, BenchStep::Wait(STEP_SETTLE_MS));
    lemma_script_ms_of_two(BenchStep::Wait(STEP_SETTLE_MS), BenchStep::Mark);
    lemma_script_ms_of_two(close, BenchStep::Wait(STEP_SETTLE_MS));
    lemma_script_ms_of_concat(open_and_wait, seq![close, BenchStep::Wait(STEP_SETTLE_MS)]);
    assert(open_and_wait + seq![close, BenchStep::Wait(STEP_SETTLE_MS)] =~= round);
    lemma_script_ms_of_repeated(open, e);
    lemma_script_ms_of_repeated(round, 8);
    lemma_script_ms_of_switches(e + 1, 8);
    lemma_script_ms_of_concat(front, settle_and_mark);
    lemma_script_ms_of_concat(front + settle_and_mark, repeated(round, 8));
    lemma_script_ms_of_concat(front + settle_and_mark, switches(e + 1, 8));
}

/// A trial without a script is given five seconds; one with a script is given those,
/// three more, and the whole seconds that the script takes.
pub proof fn a_trial_is_given_time_around_its_script(scenario: Scenario)
    ensures
        body_of(scenario) is None ==> timeout_secs(scenario) == 5,
        body_of(scenario) matches Some(steps) ==> (timeout_secs(scenario) - 8) * 1000 <= script_ms(
            steps,
        ) && script_ms(steps) < (timeout_secs(scenario) - 7) * 1000,
        body_of(scenario) is None <==> scenario is ColdStartup || scenario is WarmStartup
            || scenario is FirstPageLoad,
        MEMORY_STABILIZE_MS / TARGET_STABILIZED_RSS_SAMPLES == 750,
{
}

} // verus!
