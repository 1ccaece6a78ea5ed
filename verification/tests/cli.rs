use spout::cli::{parse_args, run_mode, CliAction, CliArg, RunMode};
use spout::clipboard::check_clipboard_command;
use spout::config::{check_config_permissions, select_profile, Config, Profile, DEFAULT_CONFIG};

fn args(list: &[&str]) -> Vec<CliArg> {
    list.iter()
        .map(|s| CliArg { text: Some(s.to_string()), shown: format!("{:?}", s) })
        .collect()
}

fn run(list: &[&str]) -> spout::cli::Cli {
    match parse_args(&args(list)).unwrap() {
        CliAction::Run(cli) => cli,
        other => panic!("unexpected {:?}", other),
    }
}

#[test]
fn reads_flags_values_and_profile() {
    let cli = run(&["zendesk", "-N", "-x", "mp4", "--name=shot.png", "-p"]);
    assert_eq!(cli.profile.as_deref(), Some("zendesk"));
    assert_eq!(cli.ext.as_deref(), Some("mp4"));
    assert_eq!(cli.name.as_deref(), Some("shot.png"));
    assert!(cli.no_clipboard && cli.check && !cli.gen_config && !cli.gen_config_force);
    let cli = run(&["--ext=gif", "--name", "-weird", "-g", "-G"]);
    assert_eq!(cli.ext.as_deref(), Some("gif"));
    assert_eq!(cli.name.as_deref(), Some("-weird"));
    assert!(cli.gen_config && cli.gen_config_force);
    let cli = run(&[]);
    assert!(cli.profile.is_none() && !cli.no_clipboard);
}

#[test]
fn help_and_version_stop_reading() {
    assert!(matches!(parse_args(&args(&["-h", "--bogus"])).unwrap(), CliAction::Help));
    assert!(matches!(parse_args(&args(&["--version"])).unwrap(), CliAction::Version));
}

#[test]
fn bad_arguments_are_reported() {
    let err = parse_args(&args(&["--bogus"])).unwrap_err();
    assert_eq!(err.message(), "unexpected argument: --bogus");
    let err = parse_args(&args(&["one", "two"])).unwrap_err();
    assert_eq!(err.message(), "unexpected argument: \"two\"");
    let err = parse_args(&args(&["-x"])).unwrap_err();
    assert_eq!(err.message(), "missing value for --ext");
    let mut list = args(&["-n"]);
    list.push(CliArg { text: None, shown: "\"\\xFF\"".to_string() });
    let err = parse_args(&list).unwrap_err();
    assert_eq!(err.message(), "invalid utf-8 in --name: \"\\xFF\"");
    let list = vec![CliArg { text: None, shown: "\"\\xFF\"".to_string() }];
    let err = parse_args(&list).unwrap_err();
    assert_eq!(err.message(), "invalid utf-8 in profile name: \"\\xFF\"");
}

#[test]
fn clipboard_commands_are_restricted() {
    let cmd = |v: &[&str]| v.iter().map(|s| s.to_string()).collect::<Vec<_>>();
    assert_eq!(check_clipboard_command(&cmd(&[]), false).unwrap(), false);
    assert_eq!(check_clipboard_command(&cmd(&["wl-copy"]), false).unwrap(), true);
    assert_eq!(check_clipboard_command(&cmd(&["xclip", "-selection", "clipboard"]), false).unwrap(), true);
    let err = check_clipboard_command(&cmd(&["/usr/bin/xsel"]), false).unwrap_err();
    assert_eq!(err.message(), "clipboard binary must be a name, not a path");
    let err = check_clipboard_command(&cmd(&["pbcopy"]), false).unwrap_err();
    assert_eq!(err.message(), "clipboard binary 'pbcopy' is not allowed");
    assert_eq!(check_clipboard_command(&cmd(&["/usr/bin/pbcopy"]), true).unwrap(), true);
}

fn named(name: &str) -> Profile {
    Profile {
        name: name.to_string(),
        url: String::new(),
        method: String::new(),
        format: String::new(),
        path: String::new(),
        strip_meta: None,
        filename: None,
        file_field: "file".to_string(),
        headers: vec![],
        fields: vec![],
    }
}

#[test]
fn profiles_are_selected_by_name() {
    let config = Config {
        default: "b".to_string(),
        clipboard: None,
        profiles: vec![named("a"), named("b"), named("b")],
        yolo: false,
    };
    assert_eq!(select_profile(&config, None).unwrap(), 1);
    assert_eq!(select_profile(&config, Some("a".to_string())).unwrap(), 0);
    let err = select_profile(&config, Some("zz".to_string())).unwrap_err();
    assert_eq!(err.message(), "no profile named 'zz'");
}

#[test]
fn config_permissions_must_be_private() {
    assert!(check_config_permissions(0o100600, "c.kdl".to_string()).is_ok());
    let err = check_config_permissions(0o100644, "c.kdl".to_string()).unwrap_err();
    assert_eq!(err.message(), "insecure config permissions -- run: chmod 600 c.kdl");
}

#[test]
fn default_config_names_the_default_profile() {
    assert!(DEFAULT_CONFIG.starts_with("default \"x0\""));
    assert!(DEFAULT_CONFIG.contains("profile \"x0\""));
    assert!(DEFAULT_CONFIG.contains("path \"upload.attachment.mapped_content_url\""));
}

#[test]
fn metadata_is_stripped_unless_switched_off() {
    let mut p = named("x");
    assert!(p.strips_metadata());
    p.strip_meta = Some(true);
    assert!(p.strips_metadata());
    p.strip_meta = Some(false);
    assert!(!p.strips_metadata());
}

#[test]
fn configuration_options_take_precedence_in_order() {
    assert_eq!(run_mode(&run(&["-g", "-G", "-p"])), RunMode::WriteConfigForce);
    assert_eq!(run_mode(&run(&["-p", "-g"])), RunMode::WriteConfig);
    assert_eq!(run_mode(&run(&["-p", "work"])), RunMode::CheckConfig);
    assert_eq!(run_mode(&run(&["work", "-n", "x.png"])), RunMode::Upload);
}
