//! The command line, and what follows from it.

use vstd::prelude::*;

use crate::config::join_path;
use crate::text::same_text;

verus! {

broadcast use vstd::seq::group_seq_axioms;

/// What the command line sets.
#[derive(Debug)]
pub struct CliArgs {
    pub daemon: bool,
    pub pid_file: Option<String>,
    pub log_file: Option<String>,
    pub config_path: Option<String>,
}

/// What the command line sets, as plain texts.
#[verifier::ext_equal]
pub struct CliView {
    pub daemon: bool,
    pub pid_file: Option<Seq<char>>,
    pub log_file: Option<Seq<char>>,
    pub config_path: Option<Seq<char>>,
}

/// The text, if there is one.
pub open spec fn text_of(t: Option<String>) -> Option<Seq<char>> {
    match t {
        Some(s) => Some(s@),
        None => None,
    }
}

impl View for CliArgs {
    type V = CliView;

    open spec fn view(&self) -> CliView {
        CliView {
            daemon: self.daemon,
            pid_file: text_of(self.pid_file),
            log_file: text_of(self.log_file),
            config_path: text_of(self.config_path),
        }
    }
}

/// What an empty command line sets.
pub open spec fn no_args() -> CliView {
    CliView { daemon: false, pid_file: None, log_file: None, config_path: None }
}

impl Default for CliArgs {
    fn default() -> (r: Self)
        ensures
            r@ == no_args(),
    {
        CliArgs { daemon: false, pid_file: None, log_file: None, config_path: None }
    }
}

/// What an argument asks for.
#[derive(Debug, Clone, Copy, PartialEq, Eq, Structural)]
pub enum Flag {
    Daemon,
    PidFile,
    LogFile,
    Config,
    Help,
    Unknown,
}

/// What an argument asks for.
pub open spec fn flag_of(s: Seq<char>) -> Flag {
    if s == "--daemon"@ || s == "-d"@ {
        Flag::Daemon
    } else if s == "--pid-file"@ {
        Flag::PidFile
    } else if s == "--log-file"@ {
        Flag::LogFile
    } else if s == "--config"@ || s == "-c"@ {
        Flag::Config
    } else if s == "--help"@ || s == "-h"@ {
        Flag::Help
    } else {
        Flag::Unknown
    }
}

/// The argument is followed by a value.
pub open spec fn takes_value(f: Flag) -> bool {
    f == Flag::PidFile || f == Flag::LogFile || f == Flag::Config
}

/// The number of arguments that an argument takes up.
pub open spec fn width(f: Flag) -> int {
    if takes_value(f) {
        2
    } else {
        1
    }
}

/// What is set after an argument, with the value that follows it.
pub open spec fn with_flag(c: CliView, f: Flag, value: Seq<char>) -> CliView {
    match f {
        Flag::Daemon => CliView { daemon: true, ..c },
        Flag::PidFile => CliView { pid_file: Some(value), ..c },
        Flag::LogFile => CliView { log_file: Some(value), ..c },
        Flag::Config => CliView { config_path: Some(value), ..c },
        _ => c,
    }
}

/// What the arguments from the `i`th on set, beside `c`. Arguments that set
/// nothing are passed over.
pub open spec fn args_from(args: Seq<Seq<char>>, i: int, c: CliView) -> CliView
    decreases args.len() - i + 1,
{
    if i < 0 || i >= args.len() {
        c
    } else {
        let f = flag_of(args[i]);
        args_from(args, i + width(f), with_flag(c, f, args[i + 1]))
    }
}

/// Each argument from the `i`th on that takes a value has one.
pub open spec fn are_complete(args: Seq<Seq<char>>, i: int) -> bool
    decreases args.len() - i,
{
    if i < 0 || i >= args.len() {
        true
    } else {
        let f = flag_of(args[i]);
        (takes_value(f) ==> i + 1 < args.len()) && are_complete(args, i + width(f))
    }
}

/// What an argument asks for.
fn read_flag(s: &str) -> (r: Flag)
    ensures
        r == flag_of(s@),
{
    if same_text(s, "--daemon") || same_text(s, "-d") {
        Flag::Daemon
    } else if same_text(s, "--pid-file") {
        Flag::PidFile
    } else if same_text(s, "--log-file") {
        Flag::LogFile
    } else if same_text(s, "--config") || same_text(s, "-c") {
        Flag::Config
    } else if same_text(s, "--help") || same_text(s, "-h") {
        Flag::Help
    } else {
        Flag::Unknown
    }
}

/// What the command line sets. The first argument is the name of the program;
/// arguments that set nothing are passed over.
pub fn parse_args_from(args: &[String]) -> (r: CliArgs)
    requires
        are_complete(crate::text::texts(args@), 1),
    ensures
        r@ == args_from(crate::text::texts(args@), 1, no_args()),
{
    let ghost t = crate::text::texts(args@);
    let mut cli = CliArgs::default();
    let mut i: usize = 1;
    while i < args.len()
        invariant
            1 <= i,
            args@.len() > 0 ==> i <= args@.len(),
            t == crate::text::texts(args@),
            t.len() == args@.len(),
            are_complete(t, i as int),
            args_from(t, i as int, cli@) == args_from(t, 1, no_args()),
        decreases args@.len() - i,
    {
        assert(t[i as int] == args@[i as int]@);
        let f = read_flag(args[i].as_str());
        match f {
            Flag::Daemon => {
                cli.daemon = true;
            },
            Flag::PidFile => {
                assert(t[i + 1] == args@[i + 1]@);
                i += 1;
                cli.pid_file = Some(args[i].clone());
            },
            Flag::LogFile => {
                assert(t[i + 1] == args@[i + 1]@);
                i += 1;
                cli.log_file = Some(args[i].clone());
            },
            Flag::Config => {
                assert(t[i + 1] == args@[i + 1]@);
                i += 1;
                cli.config_path = Some(args[i].clone());
            },
            _ => {},
        }
        i += 1;
    }
    cli
}

/// What the program is to do.
#[derive(Debug)]
pub enum Command {
    /// Run.
    Run(CliArgs),
    /// Say how it is used.
    Help,
    /// Complain about this argument.
    UnknownFlag(String),
    /// Complain that this argument has no value.
    MissingValue(String),
}

/// What the program is to do, as plain texts.
pub enum CommandView {
    Run(CliView),
    Help,
    UnknownFlag(Seq<char>),
    MissingValue(Seq<char>),
}

impl View for Command {
    type V = CommandView;

    open spec fn view(&self) -> CommandView {
        match *self {
            Command::Run(c) => CommandView::Run(c@),
            Command::Help => CommandView::Help,
            Command::UnknownFlag(s) => CommandView::UnknownFlag(s@),
            Command::MissingValue(s) => CommandView::MissingValue(s@),
        }
    }
}

/// What is asked for from the `i`th argument on. The first argument that is not
/// understood decides, and so does a call for help.
pub open spec fn command_from(args: Seq<Seq<char>>, i: int, c: CliView) -> CommandView
    decreases args.len() - i,
{
    if i < 0 || i >= args.len() {
        CommandView::Run(c)
    } else {
        let f = flag_of(args[i]);
        if f == Flag::Help {
            CommandView::Help
        } else if f == Flag::Unknown {
            CommandView::UnknownFlag(args[i])
        } else if takes_value(f) && i + 1 >= args.len() {
            CommandView::MissingValue(args[i])
        } else {
            command_from(args, i + width(f), with_flag(c, f, args[i + 1]))
        }
    }
}

/// What the arguments from the `i`th on set is what they ask for, if they ask
/// for a run.
proof fn lemma_command(args: Seq<Seq<char>>, i: int, c: CliView)
    ensures
        command_from(args, i, c) matches CommandView::Run(v) ==> are_complete(args, i) && v
            == args_from(args, i, c),
    decreases args.len() - i + 1,
{
    if 0 <= i < args.len() {
        let f = flag_of(args[i]);
        lemma_command(args, i + width(f), with_flag(c, f, args[i + 1]));
    }
}

/// What the command line asks for. The first argument is the name of the
/// program.
pub fn parse_args(args: &[String]) -> (r: Command)
    ensures
        r@ == command_from(crate::text::texts(args@), 1, no_args()),
{
    let ghost t = crate::text::texts(args@);
    let ghost mut c = no_args();
    let mut i: usize = 1;
    while i < args.len()
        invariant
            1 <= i,
            args@.len() > 0 ==> i <= args@.len(),
            t == crate::text::texts(args@),
            t.len() == args@.len(),
            command_from(t, i as int, c) == command_from(t, 1, no_args()),
        decreases args@.len() - i,
    {
        assert(t[i as int] == args@[i as int]@);
        let f = read_flag(args[i].as_str());
        proof {
            c = with_flag(c, f, t[i + 1]);
        }
        match f {
            Flag::Help => {
                return Command::Help;
            },
            Flag::Unknown => {
                return Command::UnknownFlag(args[i].clone());
            },
            Flag::Daemon => {
                i += 1;
            },
            _ => {
                if i + 1 >= args.len() {
                    return Command::MissingValue(args[i].clone());
                }
                i += 2;
            },
        }
    }
    proof {
        lemma_command(t, 1, no_args());
    }
    Command::Run(parse_args_from(args))
}

// ── Places ─────────────────────────────────────────────────────────

/// The file that is set, or else the one of this name in the Hermes directory.
pub open spec fn file_or_default(
    set: Option<Seq<char>>,
    home: Option<Seq<char>>,
    name: Seq<char>,
) -> Seq<char> {
    match set {
        Some(f) => f,
        None => crate::config::path_in(
            crate::config::path_in(
                match home {
                    Some(h) => h,
                    None => "/tmp"@,
                },
                ".hermes"@,
            ),
            name,
        ),
    }
}

/// The file that is set, or else the one of this name in the Hermes directory.
fn choose_file(set: &Option<String>, home: Option<&str>, name: &str) -> (r: String)
    ensures
        r@ == file_or_default(
            text_of(*set),
            match home {
                Some(h) => Some(h@),
                None => None,
            },
            name@,
        ),
{
    match set {
        Some(f) => f.clone(),
        None => {
            let hermes = match home {
                Some(h) => join_path(h, ".hermes"),
                None => join_path("/tmp", ".hermes"),
            };
            join_path(hermes.as_str(), name)
        },
    }
}

impl CliArgs {
    /// Where the process id is written.
    pub fn pid_path(&self, home: Option<&str>) -> (r: String)
        ensures
            r@ == file_or_default(
                self@.pid_file,
                match home {
                    Some(h) => Some(h@),
                    None => None,
                },
                "amail-bridge.pid"@,
            ),
    {
        choose_file(&self.pid_file, home, "amail-bridge.pid")
    }

    /// Where a daemon writes its log.
    pub fn log_path(&self, home: Option<&str>) -> (r: String)
        ensures
            r@ == file_or_default(
                self@.log_file,
                match home {
                    Some(h) => Some(h@),
                    None => None,
                },
                "amail-bridge.log"@,
            ),
    {
        choose_file(&self.log_file, home, "amail-bridge.log")
    }
}

/// Where the log goes: for a daemon to its own file, or else to the configured
/// file, or else to standard output, which is `None`.
pub fn log_destination(daemon: bool, daemon_log: &str, configured: Option<&str>) -> (r: Option<
    String,
>)
    ensures
        match r {
            Some(f) => if daemon {
                f@ == daemon_log@
            } else {
                configured is Some && f@ == configured->0@
            },
            None => !daemon && configured is None,
        },
{
    if daemon {
        return Some(String::from_str(daemon_log));
    }
    match configured {
        Some(f) => Some(String::from_str(f)),
        None => None,
    }
}

// ── Modes ──────────────────────────────────────────────────────────

/// The two ways to run.
#[derive(Debug, Clone, Copy, PartialEq, Eq, Structural)]
pub enum Mode {
    Push,
    Pull,
}

/// The mode of this name, or what to complain.
pub fn run_mode(mode: &str) -> (r: Result<Mode, String>)
    ensures
        match r {
            Ok(Mode::Push) => mode@ == "push"@,
            Ok(Mode::Pull) => mode@ != "push"@ && mode@ == "pull"@,
            Err(e) => mode@ != "push"@ && mode@ != "pull"@ && e@ == "Unknown mode: "@ + mode@,
        },
{
    if same_text(mode, "push") {
        Ok(Mode::Push)
    } else if same_text(mode, "pull") {
        Ok(Mode::Pull)
    } else {
        let mut e = String::from_str("Unknown mode: ");
        e.append(mode);
        Err(e)
    }
}

// ── Laws ───────────────────────────────────────────────────────────

/// A command line that is understood and asks for a run sets what its arguments
/// say.
pub proof fn run_sets_what_arguments_say(args: Seq<Seq<char>>)
    ensures
        command_from(args, 1, no_args()) matches CommandView::Run(v) ==> are_complete(args, 1) && v
            == args_from(args, 1, no_args()),
{
    lemma_command(args, 1, no_args());
}

/// The arguments are taken one after the other. What each flag sets is set, and
/// the flags with a value take the argument behind them.
pub proof fn flags_set_what_they_name(args: Seq<Seq<char>>, i: int, c: CliView)
    requires
        0 <= i < args.len(),
    ensures
        args[i] == "--daemon"@ || args[i] == "-d"@ ==> command_from(args, i, c) == command_from(
            args,
            i + 1,
            CliView { daemon: true, ..c },
        ) && args_from(args, i, c) == args_from(args, i + 1, CliView { daemon: true, ..c }),
        args[i] == "--pid-file"@ && i + 1 < args.len() ==> command_from(args, i, c) == command_from(
            args,
            i + 2,
            CliView { pid_file: Some(args[i + 1]), ..c },
        ) && args_from(args, i, c) == args_from(
            args,
            i + 2,
            CliView { pid_file: Some(args[i + 1]), ..c },
        ),
        args[i] == "--log-file"@ && i + 1 < args.len() ==> command_from(args, i, c) == command_from(
            args,
            i + 2,
            CliView { log_file: Some(args[i + 1]), ..c },
        ) && args_from(args, i, c) == args_from(
            args,
            i + 2,
            CliView { log_file: Some(args[i + 1]), ..c },
        ),
        (args[i] == "--config"@ || args[i] == "-c"@) && i + 1 < args.len() ==> command_from(
            args,
            i,
            c,
        ) == command_from(args, i + 2, CliView { config_path: Some(args[i + 1]), ..c })
            && args_from(args, i, c) == args_from(
            args,
            i + 2,
            CliView { config_path: Some(args[i + 1]), ..c },
        ),
{
    lemma_flags_differ();
}

/// The flags are different texts.
proof fn lemma_flags_differ()
    ensures
        flag_of("--daemon"@) == Flag::Daemon,
        flag_of("-d"@) == Flag::Daemon,
        flag_of("--pid-file"@) == Flag::PidFile,
        flag_of("--log-file"@) == Flag::LogFile,
        flag_of("--config"@) == Flag::Config,
        flag_of("-c"@) == Flag::Config,
        flag_of("--help"@) == Flag::Help,
        flag_of("-h"@) == Flag::Help,
{
    reveal_strlit("--daemon");
    reveal_strlit("-d");
    reveal_strlit("--pid-file");
    reveal_strlit("--log-file");
    reveal_strlit("--config");
    reveal_strlit("-c");
    reveal_strlit("--help");
    reveal_strlit("-h");
    assert("-d"@.len() == 2 && "-c"@.len() == 2 && "-h"@.len() == 2);
    assert("--daemon"@.len() == 8 && "--config"@.len() == 8 && "--help"@.len() == 6);
    assert("--pid-file"@.len() == 10 && "--log-file"@.len() == 10);
    assert("--daemon"@[2] == 'd' && "--config"@[2] == 'c');
    assert("--pid-file"@[2] == 'p' && "--log-file"@[2] == 'l');
    assert("-d"@[1] == 'd' && "-c"@[1] == 'c' && "-h"@[1] == 'h');
}

/// Arguments that ask for help end the command line with it; unknown ones, and
/// flags without the value that they need, with a complaint about them; the end
/// of the arguments is a run with what was set.
pub proof fn other_arguments_end_the_command(args: Seq<Seq<char>>, i: int, c: CliView)
    ensures
        i >= args.len() ==> command_from(args, i, c) == CommandView::Run(c) && args_from(args, i, c)
            == c,
        0 <= i < args.len() && (args[i] == "--help"@ || args[i] == "-h"@) ==> command_from(
            args,
            i,
            c,
        ) == CommandView::Help,
        i >= 0 && i + 1 == args.len() && (args[i] == "--pid-file"@ || args[i] == "--log-file"@
            || args[i] == "--config"@ || args[i] == "-c"@) ==> command_from(args, i, c)
            == CommandView::MissingValue(args[i]),
        0 <= i < args.len() && args[i] != "--daemon"@ && args[i] != "-d"@ && args[i]
            != "--pid-file"@ && args[i] != "--log-file"@ && args[i] != "--config"@ && args[i]
            != "-c"@ && args[i] != "--help"@ && args[i] != "-h"@ ==> command_from(args, i, c)
            == CommandView::UnknownFlag(args[i]) && args_from(args, i, c) == args_from(
            args,
            i + 1,
            c,
        ),
        no_args() == (CliView { daemon: false, pid_file: None, log_file: None, config_path: None }),
{
    lemma_flags_differ();
}

/// A file that is named is used; else it stands in the Hermes directory of the
/// home directory, or of `/tmp` where there is none.
pub proof fn files_stand_in_the_hermes_directory(
    set: Seq<char>,
    home: Seq<char>,
    name: Seq<char>,
)
    requires
        home.len() > 0,
        home.last() != '/',
        name.len() > 0,
        name[0] != '/',
    ensures
        file_or_default(Some(set), Some(home), name) == set,
        file_or_default(Some(set), None, name) == set,
        file_or_default(None, Some(home), name) == home + "/.hermes/"@ + name,
        file_or_default(None, None, name) == "/tmp"@ + "/.hermes/"@ + name,
{
    reveal_strlit("/tmp");
    reveal_strlit(".hermes");
    reveal_strlit("/.hermes/");
    lemma_below_hermes(home, name);
    lemma_below_hermes("/tmp"@, name);
}

/// A name below the Hermes directory of another one.
proof fn lemma_below_hermes(home: Seq<char>, name: Seq<char>)
    requires
        home.len() > 0,
        home.last() != '/',
        name.len() > 0,
        name[0] != '/',
    ensures
        crate::config::path_in(crate::config::path_in(home, ".hermes"@), name) == home
            + "/.hermes/"@ + name,
{
    reveal_strlit(".hermes");
    reveal_strlit("/.hermes/");
    crate::config::names_stand_below_directories(home, ".hermes"@);
    let dir = home + seq!['/'] + ".hermes"@;
    assert(dir.last() == 's');
    crate::config::names_stand_below_directories(dir, name);
    assert(dir + seq!['/'] + name =~= home + "/.hermes/"@ + name);
}

/// What is said of arguments and commands is what they hold.
pub proof fn commands_say_what_they_hold(c: CliArgs, command: Command)
    ensures
        c@.daemon == c.daemon,
        c@.pid_file is Some <==> c.pid_file is Some,
        c.pid_file is Some ==> c@.pid_file == Some(c.pid_file->0@),
        c@.log_file is Some <==> c.log_file is Some,
        c.log_file is Some ==> c@.log_file == Some(c.log_file->0@),
        c@.config_path is Some <==> c.config_path is Some,
        c.config_path is Some ==> c@.config_path == Some(c.config_path->0@),
        match (command, command@) {
            (Command::Run(a), CommandView::Run(v)) => v == a@,
            (Command::Help, CommandView::Help) => true,
            (Command::UnknownFlag(s), CommandView::UnknownFlag(t)) => t == s@,
            (Command::MissingValue(s), CommandView::MissingValue(t)) => t == s@,
            _ => false,
        },
{
}

} // verus!
