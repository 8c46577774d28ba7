//! The command-line grammar of `dotsync`: which command and options a list of
//! arguments selects, and the messages of the errors a user sees.
use vstd::prelude::*;

use crate::paths::{join_path, joined, views};
use crate::sync::DotSyncError;
use crate::text::{str_concat, str_eq, str_starts_with_char};

verus! {

/// A parsed command line.
pub enum CliCommand {
    Config(String),
    Add { source: String, dry_run: bool, verbose: bool },
    Apply { path: Option<String>, dry_run: bool, verbose: bool },
    Readd { dirs: bool, dry_run: bool, verbose: bool },
    Status,
    Diff,
}

/// What the command line asks for, or why it cannot run.
#[allow(inconsistent_fields)]
#[derive(Debug)]
pub enum AppError {
    Usage(String),
    DotSync(DotSyncError),
    Help,
    Version,
}

/// A parsed command line, with its paths as text.
pub enum CommandView {
    Config(Seq<char>),
    Add { source: Seq<char>, dry_run: bool, verbose: bool },
    Apply { path: Option<Seq<char>>, dry_run: bool, verbose: bool },
    Readd { dirs: bool, dry_run: bool, verbose: bool },
    Status,
    Diff,
}

impl View for CliCommand {
    type V = CommandView;

    open spec fn view(&self) -> CommandView {
        match self {
            CliCommand::Config(p) => CommandView::Config(p@),
            CliCommand::Add { source, dry_run, verbose } => CommandView::Add {
                source: source@,
                dry_run: *dry_run,
                verbose: *verbose,
            },
            CliCommand::Apply { path, dry_run, verbose } => CommandView::Apply {
                path: match path {
                    Some(p) => Some(p@),
                    None => None,
                },
                dry_run: *dry_run,
                verbose: *verbose,
            },
            CliCommand::Readd { dirs, dry_run, verbose } => CommandView::Readd {
                dirs: *dirs,
                dry_run: *dry_run,
                verbose: *verbose,
            },
            CliCommand::Status => CommandView::Status,
            CliCommand::Diff => CommandView::Diff,
        }
    }
}

/// Why a command line does not give a command: a usage message, no current
/// directory to resolve a relative path against, or a request for help or
/// for the version.
pub enum ErrorView {
    Usage(Seq<char>),
    NoCurrentDir,
    Help,
    Version,
}

/// The context of the error raised when the current directory is unknown.
pub open spec fn no_cwd_context() -> Seq<char> {
    "Could not get current directory"@
}

/// Whether `r` is the outcome `v`, which is not `NoCurrentDir`.
pub open spec fn plain_outcome_is(r: Result<CliCommand, AppError>, v: Result<CommandView, ErrorView>) -> bool {
    match v {
        Ok(cv) => r matches Ok(c) && c@ == cv,
        Err(ErrorView::Usage(mv)) => r matches Err(AppError::Usage(m)) && m@ == mv,
        Err(ErrorView::Help) => r matches Err(AppError::Help),
        Err(ErrorView::Version) => r matches Err(AppError::Version),
        Err(ErrorView::NoCurrentDir) => false,
    }
}

/// Whether `r` is the outcome `v`; for `NoCurrentDir`, the error carries the
/// error that reading the current directory `cwd` gave.
pub open spec fn outcome_is(
    r: Result<CliCommand, AppError>,
    v: Result<CommandView, ErrorView>,
    cwd: Result<String, std::io::Error>,
) -> bool {
    match v {
        Err(ErrorView::NoCurrentDir) => r matches Err(
            AppError::DotSync(DotSyncError::Io { context, source }),
        ) && context@ == no_cwd_context() && (cwd matches Err(e) && source == e),
        _ => plain_outcome_is(r, v),
    }
}

/// The current directory, when it could be read.
pub open spec fn cwd_view(cwd: Result<String, std::io::Error>) -> Option<Seq<char>> {
    match cwd {
        Ok(d) => Some(d@),
        Err(_) => None,
    }
}

/// Whether the argument `a` looks like an option (starts with `-`).
pub open spec fn is_option(a: Seq<char>) -> bool {
    a.len() > 0 && a[0] == '-'
}

pub open spec fn is_dry_run_flag(a: Seq<char>) -> bool {
    a == "-n"@ || a == "--dry-run"@
}

pub open spec fn is_verbose_flag(a: Seq<char>) -> bool {
    a == "-v"@ || a == "--verbose"@
}

pub open spec fn is_help_flag(a: Seq<char>) -> bool {
    a == "-h"@ || a == "--help"@
}

/// `Unknown option: <a>`.
pub open spec fn unknown_option(a: Seq<char>) -> Seq<char> {
    "Unknown option: "@ + a
}

/// `path` made absolute (`absolute_path`): an absolute path is kept, a
/// relative one is joined onto the current directory; `None` when the
/// current directory is needed and unknown.
pub open spec fn absolute_of(path: Seq<char>, cwd: Option<Seq<char>>) -> Option<Seq<char>> {
    if path.len() > 0 && path[0] == '/' {
        Some(path)
    } else {
        match cwd {
            Some(d) => Some(joined(d, path)),
            None => None,
        }
    }
}

/// The first `-h`/`--help` or `--version` among `args`, if any.
pub open spec fn help_or_version(args: Seq<Seq<char>>) -> Option<ErrorView>
    decreases args.len(),
{
    if args.len() == 0 {
        None
    } else if is_help_flag(args[0]) {
        Some(ErrorView::Help)
    } else if args[0] == "--version"@ {
        Some(ErrorView::Version)
    } else {
        help_or_version(args.drop_first())
    }
}

/// The first argument that is not an option, if any.
pub open spec fn first_positional(args: Seq<Seq<char>>) -> Option<Seq<char>>
    decreases args.len(),
{
    if args.len() == 0 {
        None
    } else if !is_option(args[0]) {
        Some(args[0])
    } else {
        first_positional(args.drop_first())
    }
}

/// `args` without the first occurrence of `cmd`.
pub open spec fn without_first(args: Seq<Seq<char>>, cmd: Seq<char>) -> Seq<Seq<char>>
    decreases args.len(),
{
    if args.len() == 0 {
        args
    } else if args[0] == cmd {
        args.drop_first()
    } else {
        seq![args[0]] + without_first(args.drop_first(), cmd)
    }
}

/// The arguments of `args` that are not options, in order.
pub open spec fn positionals(args: Seq<Seq<char>>) -> Seq<Seq<char>>
    decreases args.len(),
{
    if args.len() == 0 {
        Seq::empty()
    } else if is_option(args[0]) {
        positionals(args.drop_first())
    } else {
        seq![args[0]] + positionals(args.drop_first())
    }
}

/// `config <path>`: options are passed over; exactly one path, made absolute.
pub open spec fn config_outcome(args: Seq<Seq<char>>, cwd: Option<Seq<char>>) -> Result<
    CommandView,
    ErrorView,
> {
    let pos = positionals(args);
    if pos.len() == 1 {
        match absolute_of(pos[0], cwd) {
            Some(p) => Ok(CommandView::Config(p)),
            None => Err(ErrorView::NoCurrentDir),
        }
    } else if pos.len() == 0 {
        Err(ErrorView::Usage("Usage: dotsync config <destination_path>"@))
    } else {
        Err(ErrorView::Usage("'config' takes exactly one path argument."@))
    }
}

/// The flags and paths of an `add` command line read so far, or the message
/// of its first unknown option.
pub open spec fn add_scan(args: Seq<Seq<char>>, dry_run: bool, verbose: bool, pos: Seq<Seq<char>>) -> Result<
    (bool, bool, Seq<Seq<char>>),
    Seq<char>,
>
    decreases args.len(),
{
    if args.len() == 0 {
        Ok((dry_run, verbose, pos))
    } else if is_dry_run_flag(args[0]) {
        add_scan(args.drop_first(), true, verbose, pos)
    } else if is_verbose_flag(args[0]) {
        add_scan(args.drop_first(), dry_run, true, pos)
    } else if is_option(args[0]) {
        Err(unknown_option(args[0]))
    } else {
        add_scan(args.drop_first(), dry_run, verbose, pos.push(args[0]))
    }
}

/// `add [-n] [-v] <path>`: exactly one path, made absolute.
pub open spec fn add_outcome(args: Seq<Seq<char>>, cwd: Option<Seq<char>>) -> Result<
    CommandView,
    ErrorView,
> {
    match add_scan(args, false, false, Seq::empty()) {
        Err(m) => Err(ErrorView::Usage(m)),
        Ok((dry_run, verbose, pos)) => if pos.len() == 1 {
            match absolute_of(pos[0], cwd) {
                Some(p) => Ok(CommandView::Add { source: p, dry_run, verbose }),
                None => Err(ErrorView::NoCurrentDir),
            }
        } else if pos.len() == 0 {
            Err(ErrorView::Usage("Usage: dotsync add <path>"@))
        } else {
            Err(ErrorView::Usage("'add' takes exactly one path argument."@))
        },
    }
}

/// `apply [-n] [-v] [<path>]`, read from `args` with the state so far.
pub open spec fn apply_scan(
    args: Seq<Seq<char>>,
    dry_run: bool,
    verbose: bool,
    path: Option<Seq<char>>,
) -> Result<CommandView, ErrorView>
    decreases args.len(),
{
    if args.len() == 0 {
        Ok(CommandView::Apply { path, dry_run, verbose })
    } else if is_dry_run_flag(args[0]) {
        apply_scan(args.drop_first(), true, verbose, path)
    } else if is_verbose_flag(args[0]) {
        apply_scan(args.drop_first(), dry_run, true, path)
    } else if is_option(args[0]) {
        Err(ErrorView::Usage(unknown_option(args[0])))
    } else if path is None {
        apply_scan(args.drop_first(), dry_run, verbose, Some(args[0]))
    } else {
        Err(ErrorView::Usage("'apply' takes at most one path argument, got extra: "@ + args[0]))
    }
}

/// `readd [--dirs] [-n] [-v]`, read from `args` with the state so far.
pub open spec fn readd_scan(args: Seq<Seq<char>>, dirs: bool, dry_run: bool, verbose: bool) -> Result<
    CommandView,
    ErrorView,
>
    decreases args.len(),
{
    if args.len() == 0 {
        Ok(CommandView::Readd { dirs, dry_run, verbose })
    } else if args[0] == "--dirs"@ {
        readd_scan(args.drop_first(), true, dry_run, verbose)
    } else if is_dry_run_flag(args[0]) {
        readd_scan(args.drop_first(), dirs, true, verbose)
    } else if is_verbose_flag(args[0]) {
        readd_scan(args.drop_first(), dirs, dry_run, true)
    } else if is_option(args[0]) {
        Err(ErrorView::Usage(unknown_option(args[0])))
    } else {
        Err(ErrorView::Usage("'readd' takes no positional arguments, got: "@ + args[0]))
    }
}

/// A command without arguments (`status`, `diff`): any argument is refused.
pub open spec fn no_arg_outcome(args: Seq<Seq<char>>, name: Seq<char>, cmd: CommandView) -> Result<
    CommandView,
    ErrorView,
> {
    if args.len() == 0 {
        Ok(cmd)
    } else if is_option(args[0]) {
        Err(ErrorView::Usage(unknown_option(args[0])))
    } else {
        Err(ErrorView::Usage("'"@ + name + "' takes no arguments, got: "@ + args[0]))
    }
}

/// What the command line `args` (without the program name) asks for, the
/// current directory being `cwd`: help or version when asked anywhere;
/// otherwise the first argument that is not an option names the command,
/// whose own arguments are the others.
pub open spec fn arguments_outcome(args: Seq<Seq<char>>, cwd: Option<Seq<char>>) -> Result<
    CommandView,
    ErrorView,
> {
    match help_or_version(args) {
        Some(e) => Err(e),
        None => match first_positional(args) {
            Some(c) => if c == "config"@ {
                config_outcome(without_first(args, c), cwd)
            } else if c == "add"@ {
                add_outcome(without_first(args, c), cwd)
            } else if c == "apply"@ {
                apply_scan(without_first(args, c), false, false, None)
            } else if c == "readd"@ {
                readd_scan(without_first(args, c), false, false, false)
            } else if c == "status"@ {
                no_arg_outcome(without_first(args, c), "status"@, CommandView::Status)
            } else if c == "diff"@ {
                no_arg_outcome(without_first(args, c), "diff"@, CommandView::Diff)
            } else {
                Err(ErrorView::Usage("Unknown command. See --help for usage."@))
            },
            None => Err(ErrorView::Usage("Unknown command. See --help for usage."@)),
        },
    }
}

/// Whether the argument `a` looks like an option.
fn is_option_arg(a: &str) -> (b: bool)
    ensures
        b == is_option(a@),
{
    str_starts_with_char(a, '-')
}

fn is_dry_run_arg(a: &str) -> (b: bool)
    ensures
        b == is_dry_run_flag(a@),
{
    str_eq(a, "-n") || str_eq(a, "--dry-run")
}

fn is_verbose_arg(a: &str) -> (b: bool)
    ensures
        b == is_verbose_flag(a@),
{
    str_eq(a, "-v") || str_eq(a, "--verbose")
}

fn unknown_option_error(a: &str) -> (e: AppError)
    ensures
        e matches AppError::Usage(m) && m@ == unknown_option(a@),
{
    AppError::Usage(str_concat("Unknown option: ", a))
}

fn usage_error(m: &str) -> (e: AppError)
    ensures
        e matches AppError::Usage(t) && t@ == m@,
{
    AppError::Usage(m.to_owned())
}

/// `value` made absolute: kept when it starts with `/`, else joined onto the
/// current directory `cwd`; the error of reading the current directory is
/// returned when it is needed and `cwd` holds it.
pub fn absolute_path(value: &str, cwd: Result<String, std::io::Error>) -> (r: Result<String, AppError>)
    ensures
        match absolute_of(value@, cwd_view(cwd)) {
            Some(p) => r matches Ok(s) && s@ == p,
            None => r matches Err(AppError::DotSync(DotSyncError::Io { context, source }))
                && context@ == no_cwd_context() && (cwd matches Err(e) && source == e),
        },
{
    if str_starts_with_char(value, '/') {
        Ok(value.to_owned())
    } else {
        match cwd {
            Ok(dir) => Ok(join_path(dir.as_str(), value)),
            Err(source) => Err(
                AppError::DotSync(
                    DotSyncError::Io { context: "Could not get current directory".to_owned(), source },
                ),
            ),
        }
    }
}

/// `args` without the first occurrence of the command name `cmd`.
pub fn skip_command(args: &[String], cmd: &str) -> (r: Vec<String>)
    ensures
        views(r@) == without_first(views(args@), cmd@),
{
    let ghost a = views(args@);
    let mut out: Vec<String> = Vec::new();
    let mut skipped = false;
    let mut i: usize = 0;
    assert(a.skip(0) =~= a);
    assert(views(out@) =~= Seq::<Seq<char>>::empty());
    while i < args.len()
        invariant
            i <= args@.len(),
            a == views(args@),
            without_first(a, cmd@) == (if skipped {
                views(out@) + a.skip(i as int)
            } else {
                views(out@) + without_first(a.skip(i as int), cmd@)
            }),
        decreases args.len() - i,
    {
        let ghost before = views(out@);
        assert(a.skip(i as int).drop_first() =~= a.skip(i + 1));
        assert(a.skip(i as int)[0] == args@[i as int]@);
        if !skipped && str_eq(args[i].as_str(), cmd) {
            skipped = true;
        } else {
            out.push(args[i].clone());
            assert(views(out@) =~= before.push(args@[i as int]@));
            if skipped {
                assert(before + a.skip(i as int) =~= before.push(args@[i as int]@) + a.skip(i + 1));
            } else {
                assert(before + without_first(a.skip(i as int), cmd@) =~= before.push(args@[i as int]@)
                    + without_first(a.skip(i + 1), cmd@));
            }
        }
        i = i + 1;
    }
    assert(a.skip(args@.len() as int) =~= Seq::<Seq<char>>::empty());
    assert(views(out@) + Seq::<Seq<char>>::empty() =~= views(out@));
    out
}

/// `config <destination_path>`: the arguments that are not options must be
/// exactly one path, which is made absolute.
pub fn parse_config_command(args: &[String], cwd: Result<String, std::io::Error>) -> (r: Result<
    CliCommand,
    AppError,
>)
    ensures
        outcome_is(r, config_outcome(views(args@), cwd_view(cwd)), cwd),
{
    let ghost a = views(args@);
    let mut positional: Vec<String> = Vec::new();
    let mut i: usize = 0;
    assert(a.skip(0) =~= a);
    assert(views(positional@) =~= Seq::<Seq<char>>::empty());
    while i < args.len()
        invariant
            i <= args@.len(),
            a == views(args@),
            positionals(a) == views(positional@) + positionals(a.skip(i as int)),
        decreases args.len() - i,
    {
        let ghost before = views(positional@);
        assert(a.skip(i as int).drop_first() =~= a.skip(i + 1));
        assert(a.skip(i as int)[0] == args@[i as int]@);
        if !is_option_arg(args[i].as_str()) {
            positional.push(args[i].clone());
            assert(views(positional@) =~= before.push(args@[i as int]@));
            assert(before + positionals(a.skip(i as int)) =~= before.push(args@[i as int]@)
                + positionals(a.skip(i + 1)));
        }
        i = i + 1;
    }
    assert(a.skip(args@.len() as int) =~= Seq::<Seq<char>>::empty());
    assert(views(positional@) + Seq::<Seq<char>>::empty() =~= views(positional@));
    if positional.len() == 1 {
        match absolute_path(positional[0].as_str(), cwd) {
            Ok(p) => Ok(CliCommand::Config(p)),
            Err(e) => Err(e),
        }
    } else if positional.len() == 0 {
        Err(usage_error("Usage: dotsync config <destination_path>"))
    } else {
        Err(usage_error("'config' takes exactly one path argument."))
    }
}

/// `add [-n] [-v] <path>`: `-n`/`--dry-run` and `-v`/`--verbose` set their
/// flags, any other option is refused, and there must be exactly one path,
/// which is made absolute.
pub fn parse_add_command(args: &[String], cwd: Result<String, std::io::Error>) -> (r: Result<
    CliCommand,
    AppError,
>)
    ensures
        outcome_is(r, add_outcome(views(args@), cwd_view(cwd)), cwd),
{
    let ghost a = views(args@);
    let mut dry_run = false;
    let mut verbose = false;
    let mut positional: Vec<String> = Vec::new();
    let mut i: usize = 0;
    assert(a.skip(0) =~= a);
    assert(views(positional@) =~= Seq::<Seq<char>>::empty());
    while i < args.len()
        invariant
            i <= args@.len(),
            a == views(args@),
            add_scan(a, false, false, Seq::empty()) == add_scan(
                a.skip(i as int),
                dry_run,
                verbose,
                views(positional@),
            ),
        decreases args.len() - i,
    {
        let ghost before = views(positional@);
        assert(a.skip(i as int).drop_first() =~= a.skip(i + 1));
        assert(a.skip(i as int)[0] == args@[i as int]@);
        let arg = args[i].as_str();
        if is_dry_run_arg(arg) {
            dry_run = true;
        } else if is_verbose_arg(arg) {
            verbose = true;
        } else if is_option_arg(arg) {
            return Err(unknown_option_error(arg));
        } else {
            positional.push(args[i].clone());
            assert(views(positional@) =~= before.push(args@[i as int]@));
        }
        i = i + 1;
    }
    assert(a.skip(args@.len() as int) =~= Seq::<Seq<char>>::empty());
    if positional.len() == 1 {
        match absolute_path(positional[0].as_str(), cwd) {
            Ok(source) => Ok(CliCommand::Add { source, dry_run, verbose }),
            Err(e) => Err(e),
        }
    } else if positional.len() == 0 {
        Err(usage_error("Usage: dotsync add <path>"))
    } else {
        Err(usage_error("'add' takes exactly one path argument."))
    }
}

/// `apply [-n] [-v] [<path>]`: flags as for `add`, any other option refused,
/// at most one path (kept as written).
pub fn parse_apply_command(args: &[String]) -> (r: Result<CliCommand, AppError>)
    ensures
        plain_outcome_is(r, apply_scan(views(args@), false, false, None)),
{
    let ghost a = views(args@);
    let mut dry_run = false;
    let mut verbose = false;
    let mut path: Option<String> = None;
    let mut i: usize = 0;
    assert(a.skip(0) =~= a);
    while i < args.len()
        invariant
            i <= args@.len(),
            a == views(args@),
            apply_scan(a, false, false, None) == apply_scan(
                a.skip(i as int),
                dry_run,
                verbose,
                match path {
                    Some(p) => Some(p@),
                    None => None,
                },
            ),
        decreases args.len() - i,
    {
        assert(a.skip(i as int).drop_first() =~= a.skip(i + 1));
        assert(a.skip(i as int)[0] == args@[i as int]@);
        let arg = args[i].as_str();
        if is_dry_run_arg(arg) {
            dry_run = true;
        } else if is_verbose_arg(arg) {
            verbose = true;
        } else if is_option_arg(arg) {
            return Err(unknown_option_error(arg));
        } else if path.is_none() {
            path = Some(args[i].clone());
        } else {
            return Err(AppError::Usage(str_concat("'apply' takes at most one path argument, got extra: ", arg)));
        }
        i = i + 1;
    }
    assert(a.skip(args@.len() as int) =~= Seq::<Seq<char>>::empty());
    Ok(CliCommand::Apply { path, dry_run, verbose })
}

/// `readd [--dirs] [-n] [-v]`: `--dirs` and the flags of `add`; any other
/// option or any path is refused.
pub fn parse_readd_command(args: &[String]) -> (r: Result<CliCommand, AppError>)
    ensures
        plain_outcome_is(r, readd_scan(views(args@), false, false, false)),
{
    let ghost a = views(args@);
    let mut dirs = false;
    let mut dry_run = false;
    let mut verbose = false;
    let mut i: usize = 0;
    assert(a.skip(0) =~= a);
    while i < args.len()
        invariant
            i <= args@.len(),
            a == views(args@),
            readd_scan(a, false, false, false) == readd_scan(a.skip(i as int), dirs, dry_run, verbose),
        decreases args.len() - i,
    {
        assert(a.skip(i as int).drop_first() =~= a.skip(i + 1));
        assert(a.skip(i as int)[0] == args@[i as int]@);
        let arg = args[i].as_str();
        if str_eq(arg, "--dirs") {
            dirs = true;
        } else if is_dry_run_arg(arg) {
            dry_run = true;
        } else if is_verbose_arg(arg) {
            verbose = true;
        } else if is_option_arg(arg) {
            return Err(unknown_option_error(arg));
        } else {
            return Err(AppError::Usage(str_concat("'readd' takes no positional arguments, got: ", arg)));
        }
        i = i + 1;
    }
    assert(a.skip(args@.len() as int) =~= Seq::<Seq<char>>::empty());
    Ok(CliCommand::Readd { dirs, dry_run, verbose })
}

/// A command named `name` that takes no arguments: the first argument, if
/// any, is refused.
pub fn parse_no_arg_command(args: &[String], name: &str, cmd: CliCommand) -> (r: Result<
    CliCommand,
    AppError,
>)
    ensures
        plain_outcome_is(r, no_arg_outcome(views(args@), name@, cmd@)),
{
    if args.len() > 0 {
        let arg = args[0].as_str();
        if is_option_arg(arg) {
            return Err(unknown_option_error(arg));
        }
        let a = str_concat("'", name);
        let b = str_concat(a.as_str(), "' takes no arguments, got: ");
        let m = str_concat(b.as_str(), arg);
        assert(m@ =~= "'"@ + name@ + "' takes no arguments, got: "@ + arg@);
        return Err(AppError::Usage(m));
    }
    Ok(cmd)
}

/// Reads the command line `args` (without the program name), the current
/// directory being `cwd` (`arguments_outcome`).
pub fn parse_arguments(args: Vec<String>, cwd: Result<String, std::io::Error>) -> (r: Result<
    CliCommand,
    AppError,
>)
    ensures
        outcome_is(r, arguments_outcome(views(args@), cwd_view(cwd)), cwd),
{
    let ghost a = views(args@);
    let mut i: usize = 0;
    assert(a.skip(0) =~= a);
    while i < args.len()
        invariant
            i <= args@.len(),
            a == views(args@),
            help_or_version(a) == help_or_version(a.skip(i as int)),
        decreases args.len() - i,
    {
        assert(a.skip(i as int).drop_first() =~= a.skip(i + 1));
        assert(a.skip(i as int)[0] == args@[i as int]@);
        let arg = args[i].as_str();
        if str_eq(arg, "-h") || str_eq(arg, "--help") {
            return Err(AppError::Help);
        }
        if str_eq(arg, "--version") {
            return Err(AppError::Version);
        }
        i = i + 1;
    }
    assert(a.skip(args@.len() as int) =~= Seq::<Seq<char>>::empty());
    let mut j: usize = 0;
    while j < args.len() && is_option_arg(args[j].as_str())
        invariant
            j <= args@.len(),
            a == views(args@),
            first_positional(a) == first_positional(a.skip(j as int)),
        decreases args.len() - j,
    {
        assert(a.skip(j as int).drop_first() =~= a.skip(j + 1));
        assert(a.skip(j as int)[0] == args@[j as int]@);
        j = j + 1;
    }
    if j == args.len() {
        assert(a.skip(args@.len() as int) =~= Seq::<Seq<char>>::empty());
        return Err(usage_error("Unknown command. See --help for usage."));
    }
    assert(a.skip(j as int)[0] == args@[j as int]@);
    let first = args[j].as_str();
    if str_eq(first, "config") {
        parse_config_command(&skip_command(&args, "config"), cwd)
    } else if str_eq(first, "add") {
        parse_add_command(&skip_command(&args, "add"), cwd)
    } else if str_eq(first, "apply") {
        parse_apply_command(&skip_command(&args, "apply"))
    } else if str_eq(first, "readd") {
        parse_readd_command(&skip_command(&args, "readd"))
    } else if str_eq(first, "status") {
        parse_no_arg_command(&skip_command(&args, "status"), "status", CliCommand::Status)
    } else if str_eq(first, "diff") {
        parse_no_arg_command(&skip_command(&args, "diff"), "diff", CliCommand::Diff)
    } else {
        Err(usage_error("Unknown command. See --help for usage."))
    }
}

/// The configured repository, or the usage error telling how to configure
/// one.
pub fn require_destination(destination: Option<String>) -> (r: Result<String, AppError>)
    ensures
        match destination {
            Some(d) => r matches Ok(s) && s == d,
            None => r matches Err(AppError::Usage(m)) && m@
                == "No destination configured. Run 'dotsync config <path>' first."@,
        },
{
    match destination {
        Some(d) => Ok(d),
        None => Err(usage_error("No destination configured. Run 'dotsync config <path>' first.")),
    }
}

/// The home directory, or the usage error saying that `HOME` is unset.
pub fn require_home(home: Option<String>) -> (r: Result<String, AppError>)
    ensures
        match home {
            Some(h) => r matches Ok(s) && s == h,
            None => r matches Err(AppError::Usage(m)) && m@ == "HOME environment variable is not set."@,
        },
{
    match home {
        Some(h) => Ok(h),
        None => Err(usage_error("HOME environment variable is not set.")),
    }
}

/// The origin and destination of `apply`: the whole repository onto home,
/// or, for a path, that path under the repository onto the same path under
/// home.
pub fn apply_targets(repo: &str, home: &str, path: &Option<String>) -> (r: (String, String))
    ensures
        match path {
            None => r.0@ == repo@ && r.1@ == home@,
            Some(p) => r.0@ == joined(repo@, p@) && r.1@ == joined(home@, p@),
        },
{
    match path {
        None => (repo.to_owned(), home.to_owned()),
        Some(p) => (join_path(repo, p.as_str()), join_path(home, p.as_str())),
    }
}

/// The error of applying a path `path` that the repository `repo` does not
/// hold.
pub fn missing_in_repo_error(path: &str, repo: &str) -> (e: AppError)
    ensures
        e matches AppError::Usage(m) && m@ == crate::sync::quoted(path@) + " not found in repo "@
            + crate::sync::quoted(repo@) + seq!['.'],
{
    let a = str_concat("'", path);
    let b = str_concat(a.as_str(), "' not found in repo '");
    let c = str_concat(b.as_str(), repo);
    let m = str_concat(c.as_str(), "'.");
    proof {
        reveal_strlit("'");
        reveal_strlit("' not found in repo '");
        reveal_strlit(" not found in repo ");
        reveal_strlit("'.");
    }
    assert(m@ =~= crate::sync::quoted(path@) + " not found in repo "@ + crate::sync::quoted(repo@)
        + seq!['.']);
    AppError::Usage(m)
}

impl AppError {
    /// The text shown for this error: a usage message as is, a
    /// synchronization error by its own message, nothing for help and
    /// version.
    pub fn message(&self) -> (m: String)
        ensures
            match self {
                AppError::Usage(u) => m@ == u@,
                AppError::DotSync(e) => exists|t: String| e.message_is(t) && m@ == t@,
                AppError::Help => m@ == Seq::<char>::empty(),
                AppError::Version => m@ == Seq::<char>::empty(),
            },
    {
        match self {
            AppError::Usage(u) => u.clone(),
            AppError::DotSync(e) => e.message(),
            AppError::Help => String::new(),
            AppError::Version => String::new(),
        }
    }
}

/// Help and version win over any command: when some argument asks for help
/// or for the version, the command line asks for the first of these, and
/// nothing else is read.
pub proof fn lemma_help_or_version_first(args: Seq<Seq<char>>, cwd: Option<Seq<char>>, i: int)
    requires
        0 <= i < args.len(),
        is_help_flag(args[i]) || args[i] == "--version"@,
        forall|j: int| 0 <= j < i ==> !is_help_flag(#[trigger] args[j]) && args[j] != "--version"@,
    ensures
        arguments_outcome(args, cwd) == (if is_help_flag(args[i]) {
            Err::<CommandView, ErrorView>(ErrorView::Help)
        } else {
            Err::<CommandView, ErrorView>(ErrorView::Version)
        }),
{
    lemma_help_or_version_found(args, i);
}

/// `help_or_version` finds the first help or version flag.
proof fn lemma_help_or_version_found(args: Seq<Seq<char>>, i: int)
    requires
        0 <= i < args.len(),
        is_help_flag(args[i]) || args[i] == "--version"@,
        forall|j: int| 0 <= j < i ==> !is_help_flag(#[trigger] args[j]) && args[j] != "--version"@,
    ensures
        help_or_version(args) == (if is_help_flag(args[i]) {
            Some(ErrorView::Help)
        } else {
            Some(ErrorView::Version)
        }),
    decreases i,
{
    if i > 0 {
        let rest = args.drop_first();
        assert forall|j: int| 0 <= j < i - 1 implies !is_help_flag(#[trigger] rest[j]) && rest[j]
            != "--version"@ by {
            assert(rest[j] == args[j + 1]);
        }
        assert(rest[i - 1] == args[i]);
        lemma_help_or_version_found(rest, i - 1);
        assert(!is_help_flag(args[0]) && args[0] != "--version"@);
    }
}

impl From<DotSyncError> for AppError {
    fn from(error: DotSyncError) -> (r: Self) {
        AppError::DotSync(error)
    }
}

impl vstd::std_specs::convert::FromSpecImpl<DotSyncError> for AppError {
    open spec fn obeys_from_spec() -> bool {
        true
    }

    open spec fn from_spec(error: DotSyncError) -> Self {
        AppError::DotSync(error)
    }
}


/// Whether some argument of `args` is `a` or `b`.
pub open spec fn mentions(args: Seq<Seq<char>>, a: Seq<char>, b: Seq<char>) -> bool {
    exists|i: int| 0 <= i < args.len() && (#[trigger] args[i] == a || args[i] == b)
}

/// An argument list mentions `a` or `b` when its first argument is one, or
/// when the rest does.
proof fn lemma_mentions_first(args: Seq<Seq<char>>, a: Seq<char>, b: Seq<char>)
    requires
        args.len() > 0,
    ensures
        mentions(args, a, b) <==> (args[0] == a || args[0] == b || mentions(args.drop_first(), a, b)),
{
    let rest = args.drop_first();
    if mentions(args, a, b) {
        let i = choose|i: int| 0 <= i < args.len() && (#[trigger] args[i] == a || args[i] == b);
        if i > 0 {
            assert(rest[i - 1] == args[i]);
        }
    }
    if mentions(rest, a, b) {
        let i = choose|i: int| 0 <= i < rest.len() && (#[trigger] rest[i] == a || rest[i] == b);
        assert(args[i + 1] == rest[i]);
    }
}

/// The flag names differ from one another.
proof fn lemma_flag_names_differ()
    ensures
        "-n"@ != "-v"@,
        "-n"@ != "--verbose"@,
        "-n"@ != "--dirs"@,
        "--dry-run"@ != "-v"@,
        "--dry-run"@ != "--verbose"@,
        "--dry-run"@ != "--dirs"@,
        "-v"@ != "--dirs"@,
        "--verbose"@ != "--dirs"@,
{
    reveal_strlit("-n");
    reveal_strlit("--dry-run");
    reveal_strlit("-v");
    reveal_strlit("--verbose");
    reveal_strlit("--dirs");
    assert("-n"@[1] != "-v"@[1]);
    assert("--dry-run"@[2] != "--verbose"@[2]);
    assert("--dry-run"@[3] != "--dirs"@[3]);
    assert("--verbose"@[3] != "--dirs"@[3]);
}

/// What reading `add` arguments gives: dry run when started so or some
/// argument is `-n`/`--dry-run`, verbose likewise with `-v`/`--verbose`,
/// and paths that were already there or are arguments not starting with `-`.
proof fn lemma_add_scan_flags(args: Seq<Seq<char>>, dry_run: bool, verbose: bool, pos: Seq<Seq<char>>)
    ensures
        add_scan(args, dry_run, verbose, pos) matches Ok((d, v, ps)) ==> {
            &&& d <==> (dry_run || mentions(args, "-n"@, "--dry-run"@))
            &&& v <==> (verbose || mentions(args, "-v"@, "--verbose"@))
            &&& forall|j: int|
                0 <= j < ps.len() ==> pos.contains(#[trigger] ps[j]) || (args.contains(ps[j]) && !(
                ps[j].len() > 0 && ps[j][0] == '-'))
        },
    decreases args.len(),
{
    reveal_strlit("-n");
    reveal_strlit("--dry-run");
    reveal_strlit("-v");
    reveal_strlit("--verbose");
    lemma_flag_names_differ();
    if args.len() > 0 {
        let rest = args.drop_first();
        lemma_mentions_first(args, "-n"@, "--dry-run"@);
        lemma_mentions_first(args, "-v"@, "--verbose"@);
        let a0 = args[0];
        if is_dry_run_flag(a0) {
            lemma_add_scan_flags(rest, true, verbose, pos);
        } else if is_verbose_flag(a0) {
            lemma_add_scan_flags(rest, dry_run, true, pos);
        } else if is_option(a0) {
        } else {
            lemma_add_scan_flags(rest, dry_run, verbose, pos.push(a0));
        }
        if add_scan(args, dry_run, verbose, pos) is Ok {
            let ps = add_scan(args, dry_run, verbose, pos)->Ok_0.2;
            assert forall|j: int| 0 <= j < ps.len() implies pos.contains(#[trigger] ps[j]) || (
            args.contains(ps[j]) && !(ps[j].len() > 0 && ps[j][0] == '-')) by {
                if !is_dry_run_flag(a0) && !is_verbose_flag(a0) && !is_option(a0) {
                    if pos.push(a0).contains(ps[j]) {
                        let k = choose|k: int| 0 <= k < pos.push(a0).len() && pos.push(a0)[k] == ps[j];
                        if k < pos.len() {
                            assert(pos[k] == ps[j]);
                        } else {
                            assert(args[0] == ps[j]);
                        }
                    } else {
                        let k = choose|k: int| 0 <= k < rest.len() && rest[k] == ps[j];
                        assert(args[k + 1] == ps[j]);
                    }
                } else {
                    if !pos.contains(ps[j]) {
                        let k = choose|k: int| 0 <= k < rest.len() && rest[k] == ps[j];
                        assert(args[k + 1] == ps[j]);
                    }
                }
            }
        }
    }
}

/// `add` reads its flags from anywhere on the line: in the command it gives,
/// dry run holds exactly when some argument is `-n` or `--dry-run`, verbose
/// exactly when some argument is `-v` or `--verbose`, and the source is an
/// argument not starting with `-`, made absolute against `cwd`.
pub proof fn lemma_add_flags(args: Seq<Seq<char>>, cwd: Option<Seq<char>>)
    ensures
        add_outcome(args, cwd) matches Ok(CommandView::Add { source, dry_run, verbose }) ==> {
            &&& dry_run <==> mentions(args, "-n"@, "--dry-run"@)
            &&& verbose <==> mentions(args, "-v"@, "--verbose"@)
            &&& exists|i: int|
                0 <= i < args.len() && !(args[i].len() > 0 && args[i][0] == '-') && absolute_of(
                    #[trigger] args[i],
                    cwd,
                ) == Some(source)
        },
{
    lemma_add_scan_flags(args, false, false, Seq::empty());
    if add_scan(args, false, false, Seq::empty()) is Ok {
        let ps = add_scan(args, false, false, Seq::empty())->Ok_0.2;
        if ps.len() == 1 {
            assert(!Seq::<Seq<char>>::empty().contains(ps[0]));
            assert(args.contains(ps[0]));
            let i = choose|i: int| 0 <= i < args.len() && args[i] == ps[0];
            assert(args[i] == ps[0]);
        }
    }
}

/// `apply` reads its flags from anywhere on the line: in the command it
/// gives, dry run holds exactly when some argument is `-n` or `--dry-run`,
/// and verbose exactly when some argument is `-v` or `--verbose`.
pub proof fn lemma_apply_flags(args: Seq<Seq<char>>, dry_run: bool, verbose: bool, path: Option<Seq<char>>)
    ensures
        apply_scan(args, dry_run, verbose, path) matches Ok(CommandView::Apply { path: p, dry_run: d, verbose: v }) ==> {
            &&& d <==> (dry_run || mentions(args, "-n"@, "--dry-run"@))
            &&& v <==> (verbose || mentions(args, "-v"@, "--verbose"@))
        },
    decreases args.len(),
{
    reveal_strlit("-n");
    reveal_strlit("--dry-run");
    reveal_strlit("-v");
    reveal_strlit("--verbose");
    lemma_flag_names_differ();
    if args.len() > 0 {
        let rest = args.drop_first();
        lemma_mentions_first(args, "-n"@, "--dry-run"@);
        lemma_mentions_first(args, "-v"@, "--verbose"@);
        if is_dry_run_flag(args[0]) {
            lemma_apply_flags(rest, true, verbose, path);
        } else if is_verbose_flag(args[0]) {
            lemma_apply_flags(rest, dry_run, true, path);
        } else if is_option(args[0]) {
        } else if path is None {
            lemma_apply_flags(rest, dry_run, verbose, Some(args[0]));
        }
    }
}

/// `readd` reads its flags from anywhere on the line: in the command it
/// gives, `dirs` holds exactly when some argument is `--dirs`, dry run
/// exactly when some argument is `-n` or `--dry-run`, and verbose exactly
/// when some argument is `-v` or `--verbose`.
pub proof fn lemma_readd_flags(args: Seq<Seq<char>>, dirs: bool, dry_run: bool, verbose: bool)
    ensures
        readd_scan(args, dirs, dry_run, verbose) matches Ok(CommandView::Readd { dirs: r, dry_run: d, verbose: v }) ==> {
            &&& r <==> (dirs || mentions(args, "--dirs"@, "--dirs"@))
            &&& d <==> (dry_run || mentions(args, "-n"@, "--dry-run"@))
            &&& v <==> (verbose || mentions(args, "-v"@, "--verbose"@))
        },
    decreases args.len(),
{
    reveal_strlit("-n");
    reveal_strlit("--dry-run");
    reveal_strlit("-v");
    reveal_strlit("--verbose");
    reveal_strlit("--dirs");
    lemma_flag_names_differ();
    if args.len() > 0 {
        let rest = args.drop_first();
        lemma_mentions_first(args, "-n"@, "--dry-run"@);
        lemma_mentions_first(args, "-v"@, "--verbose"@);
        lemma_mentions_first(args, "--dirs"@, "--dirs"@);
        if args[0] == "--dirs"@ {
            lemma_readd_flags(rest, true, dry_run, verbose);
        } else if is_dry_run_flag(args[0]) {
            lemma_readd_flags(rest, dirs, true, verbose);
        } else if is_verbose_flag(args[0]) {
            lemma_readd_flags(rest, dirs, dry_run, true);
        }
    }
}

} // verus!
