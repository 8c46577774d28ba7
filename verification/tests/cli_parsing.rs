use dotsync::cli::{
    apply_targets, missing_in_repo_error, parse_add_command, parse_apply_command, parse_arguments,
    parse_config_command, parse_no_arg_command, parse_readd_command, require_destination,
    require_home, skip_command, AppError, CliCommand,
};
use dotsync::sync::DotSyncError;

fn args(v: &[&str]) -> Vec<String> {
    v.iter().map(|s| s.to_string()).collect()
}

fn cwd() -> Result<String, std::io::Error> {
    Ok("/work".to_string())
}

fn no_cwd() -> Result<String, std::io::Error> {
    Err(std::io::Error::new(std::io::ErrorKind::NotFound, "gone"))
}

fn usage(r: Result<CliCommand, AppError>) -> String {
    match r {
        Err(AppError::Usage(m)) => m,
        _ => panic!("expected a usage error"),
    }
}

#[test]
fn help_and_version_anywhere() {
    assert!(matches!(parse_arguments(args(&["add", "x", "--help"]), cwd()), Err(AppError::Help)));
    assert!(matches!(parse_arguments(args(&["-h"]), cwd()), Err(AppError::Help)));
    assert!(matches!(parse_arguments(args(&["apply", "--version"]), cwd()), Err(AppError::Version)));
    assert!(matches!(parse_arguments(args(&["--version", "-h"]), cwd()), Err(AppError::Version)));
}

#[test]
fn unknown_or_missing_command() {
    assert_eq!(usage(parse_arguments(args(&[]), cwd())), "Unknown command. See --help for usage.");
    assert_eq!(usage(parse_arguments(args(&["-n", "frob"]), cwd())), "Unknown command. See --help for usage.");
}

#[test]
fn config_command() {
    match parse_arguments(args(&["config", "dots"]), cwd()) {
        Ok(CliCommand::Config(p)) => assert_eq!(p, "/work/dots"),
        _ => panic!(),
    }
    match parse_arguments(args(&["config", "-x", "/abs/dots"]), no_cwd()) {
        Ok(CliCommand::Config(p)) => assert_eq!(p, "/abs/dots"),
        _ => panic!(),
    }
    assert_eq!(usage(parse_config_command(&args(&[]), cwd())), "Usage: dotsync config <destination_path>");
    assert_eq!(usage(parse_config_command(&args(&["a", "b"]), cwd())), "'config' takes exactly one path argument.");
    match parse_config_command(&args(&["rel"]), no_cwd()) {
        Err(AppError::DotSync(DotSyncError::Io { context, .. })) => {
            assert_eq!(context, "Could not get current directory")
        }
        _ => panic!(),
    }
}

#[test]
fn add_command() {
    match parse_arguments(args(&["-v", "add", "-n", ".zshrc"]), cwd()) {
        Ok(CliCommand::Add { source, dry_run, verbose }) => {
            assert_eq!(source, "/work/.zshrc");
            assert!(dry_run && verbose);
        }
        _ => panic!(),
    }
    assert_eq!(usage(parse_add_command(&args(&["--force", "x"]), cwd())), "Unknown option: --force");
    assert_eq!(usage(parse_add_command(&args(&[]), cwd())), "Usage: dotsync add <path>");
    assert_eq!(usage(parse_add_command(&args(&["a", "b"]), cwd())), "'add' takes exactly one path argument.");
}

#[test]
fn apply_command() {
    match parse_apply_command(&args(&[])) {
        Ok(CliCommand::Apply { path, dry_run, verbose }) => {
            assert!(path.is_none() && !dry_run && !verbose)
        }
        _ => panic!(),
    }
    match parse_apply_command(&args(&["--dry-run", ".config/nvim", "--verbose"])) {
        Ok(CliCommand::Apply { path, dry_run, verbose }) => {
            assert_eq!(path.as_deref(), Some(".config/nvim"));
            assert!(dry_run && verbose);
        }
        _ => panic!(),
    }
    assert_eq!(
        usage(parse_apply_command(&args(&["a", "b"]))),
        "'apply' takes at most one path argument, got extra: b"
    );
    assert_eq!(usage(parse_apply_command(&args(&["-q"]))), "Unknown option: -q");
}

#[test]
fn readd_command() {
    match parse_arguments(args(&["readd", "--dirs", "-v"]), cwd()) {
        Ok(CliCommand::Readd { dirs, dry_run, verbose }) => assert!(dirs && !dry_run && verbose),
        _ => panic!(),
    }
    assert_eq!(
        usage(parse_readd_command(&args(&["x"]))),
        "'readd' takes no positional arguments, got: x"
    );
    assert_eq!(usage(parse_readd_command(&args(&["--all"]))), "Unknown option: --all");
}

#[test]
fn no_argument_commands() {
    assert!(matches!(parse_arguments(args(&["status"]), cwd()), Ok(CliCommand::Status)));
    assert!(matches!(parse_arguments(args(&["diff"]), cwd()), Ok(CliCommand::Diff)));
    assert_eq!(
        usage(parse_no_arg_command(&args(&["x"]), "status", CliCommand::Status)),
        "'status' takes no arguments, got: x"
    );
    assert_eq!(
        usage(parse_no_arg_command(&args(&["-x", "y"]), "diff", CliCommand::Diff)),
        "Unknown option: -x"
    );
}

#[test]
fn skip_command_removes_first_occurrence_only() {
    assert_eq!(skip_command(&args(&["-n", "add", "add"]), "add"), args(&["-n", "add"]));
    assert_eq!(skip_command(&args(&["x"]), "add"), args(&["x"]));
}

#[test]
fn requirements() {
    assert_eq!(require_home(Some("/h".to_string())).ok(), Some("/h".to_string()));
    match require_home(None) {
        Err(AppError::Usage(m)) => assert_eq!(m, "HOME environment variable is not set."),
        _ => panic!(),
    }
    match require_destination(None) {
        Err(AppError::Usage(m)) => {
            assert_eq!(m, "No destination configured. Run 'dotsync config <path>' first.")
        }
        _ => panic!(),
    }
    assert_eq!(require_destination(Some("/r".to_string())).ok(), Some("/r".to_string()));
}

#[test]
fn apply_origin_and_destination() {
    assert_eq!(apply_targets("/r", "/h", &None), ("/r".to_string(), "/h".to_string()));
    assert_eq!(
        apply_targets("/r", "/h", &Some(".config/nvim".to_string())),
        ("/r/.config/nvim".to_string(), "/h/.config/nvim".to_string())
    );
    assert_eq!(missing_in_repo_error("x", "/r").message(), "'x' not found in repo '/r'.");
}

#[test]
fn error_messages() {
    assert_eq!(AppError::Help.message(), "");
    assert_eq!(AppError::Usage("u".to_string()).message(), "u");
    let e = AppError::DotSync(DotSyncError::InvalidOriginDir("/r".to_string()));
    assert_eq!(e.message(), "Error: origin directory '/r' does not exist.");
}

#[test]
fn sync_errors_become_app_errors() {
    let e: AppError = DotSyncError::InvalidOriginDir("/o".to_string()).into();
    assert!(matches!(e, AppError::DotSync(DotSyncError::InvalidOriginDir(ref p)) if p == "/o"));
}
