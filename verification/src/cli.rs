use vstd::prelude::*;

use crate::error::SpoutError;
use crate::text::{chars_of, concat, equals_literal, starts_with_literal, string_from_chars};

verus! {

/// What was asked for on the command line.
#[derive(Debug, Default)]
pub struct Cli {
    pub profile: Option<String>,
    pub name: Option<String>,
    pub ext: Option<String>,
    pub no_clipboard: bool,
    pub check: bool,
    pub gen_config: bool,
    pub gen_config_force: bool,
}

/// One command-line argument: its text, if it is valid UTF-8, and how it
/// is shown in messages (its debug rendering).
#[derive(Debug)]
pub struct CliArg {
    pub text: Option<String>,
    pub shown: String,
}

/// What the command line asks the program to do.
#[derive(Debug)]
pub enum CliAction {
    /// Upload, or handle the configuration, as the options say.
    Run(Cli),
    /// Print the usage and stop.
    Help,
    /// Print the version and stop.
    Version,
}

/// The options of a command line, as text.
pub struct CliModel {
    pub profile: Option<Seq<char>>,
    pub name: Option<Seq<char>>,
    pub ext: Option<Seq<char>>,
    pub no_clipboard: bool,
    pub check: bool,
    pub gen_config: bool,
    pub gen_config_force: bool,
}

/// Where reading a command line ends.
pub enum CliOutcome {
    Run(CliModel),
    Help,
    Version,
    /// An argument that is not understood, with the message.
    BadArgument(Seq<char>),
    /// An argument that is not UTF-8: what it was for, and how it is shown.
    BadUtf8(Seq<char>, Seq<char>),
}

pub open spec fn opt_text(o: Option<String>) -> Option<Seq<char>> {
    match o {
        Some(s) => Some(s@),
        None => None,
    }
}

impl Cli {
    pub open spec fn model(self) -> CliModel {
        CliModel {
            profile: opt_text(self.profile),
            name: opt_text(self.name),
            ext: opt_text(self.ext),
            no_clipboard: self.no_clipboard,
            check: self.check,
            gen_config: self.gen_config,
            gen_config_force: self.gen_config_force,
        }
    }
}

/// No options given.
pub open spec fn empty_model() -> CliModel {
    CliModel {
        profile: None,
        name: None,
        ext: None,
        no_clipboard: false,
        check: false,
        gen_config: false,
        gen_config_force: false,
    }
}

/// `s` starts with `p`.
pub open spec fn has_prefix(s: Seq<char>, p: Seq<char>) -> bool {
    p.len() <= s.len() && s.subrange(0, p.len() as int) == p
}

/// The option that takes the next argument as its value, `--ext` or `--name`.
pub open spec fn with_value(st: CliModel, is_ext: bool, v: Seq<char>) -> CliModel {
    if is_ext {
        CliModel { ext: Some(v), ..st }
    } else {
        CliModel { name: Some(v), ..st }
    }
}

/// Reading the command line from argument `i` on, with the options so far.
pub open spec fn cli_from(args: Seq<CliArg>, i: int, st: CliModel) -> CliOutcome
    decreases args.len() - i,
{
    if i < 0 || i >= args.len() {
        CliOutcome::Run(st)
    } else {
        let a = args[i];
        match a.text {
            Some(t) => {
                let s = t@;
                if s == "-h"@ || s == "--help"@ {
                    CliOutcome::Help
                } else if s == "-v"@ || s == "--version"@ {
                    CliOutcome::Version
                } else if s == "-p"@ || s == "--parse"@ {
                    cli_from(args, i + 1, CliModel { check: true, ..st })
                } else if s == "-N"@ || s == "--no-clipboard"@ {
                    cli_from(args, i + 1, CliModel { no_clipboard: true, ..st })
                } else if s == "-g"@ || s == "--gen-config"@ {
                    cli_from(args, i + 1, CliModel { gen_config: true, ..st })
                } else if s == "-G"@ || s == "--gen-config-force"@ {
                    cli_from(args, i + 1, CliModel { gen_config_force: true, ..st })
                } else if s == "-x"@ || s == "--ext"@ || s == "-n"@ || s == "--name"@ {
                    let is_ext = s == "-x"@ || s == "--ext"@;
                    let opt = if is_ext {
                        "--ext"@
                    } else {
                        "--name"@
                    };
                    if i + 1 >= args.len() {
                        CliOutcome::BadArgument("missing value for "@ + opt)
                    } else {
                        match args[i + 1].text {
                            Some(v) => cli_from(args, i + 2, with_value(st, is_ext, v@)),
                            None => CliOutcome::BadUtf8(opt, args[i + 1].shown@),
                        }
                    }
                } else if has_prefix(s, "--ext="@) {
                    cli_from(
                        args,
                        i + 1,
                        CliModel { ext: Some(s.subrange("--ext="@.len() as int, s.len() as int)), ..st },
                    )
                } else if has_prefix(s, "--name="@) {
                    cli_from(
                        args,
                        i + 1,
                        CliModel {
                            name: Some(s.subrange("--name="@.len() as int, s.len() as int)),
                            ..st
                        },
                    )
                } else if s.len() > 0 && s[0] == '-' {
                    CliOutcome::BadArgument("unexpected argument: "@ + s)
                } else if st.profile is None {
                    cli_from(args, i + 1, CliModel { profile: Some(s), ..st })
                } else {
                    CliOutcome::BadArgument("unexpected argument: "@ + a.shown@)
                }
            },
            None => if st.profile is None {
                CliOutcome::BadUtf8("profile name"@, a.shown@)
            } else {
                CliOutcome::BadArgument("unexpected argument: "@ + a.shown@)
            },
        }
    }
}

/// What `parse_args` gives for a command line that reads as `o`.
pub open spec fn cli_result(o: CliOutcome, res: Result<CliAction, SpoutError>) -> bool {
    match o {
        CliOutcome::Run(m) => res matches Ok(CliAction::Run(c)) && c.model() == m,
        CliOutcome::Help => res matches Ok(CliAction::Help),
        CliOutcome::Version => res matches Ok(CliAction::Version),
        CliOutcome::BadArgument(msg) => res matches Err(SpoutError::InvalidArgument(x)) && x@
            == msg,
        CliOutcome::BadUtf8(what, shown) => res matches Err(SpoutError::InvalidUtf8(w, x)) && w@
            == what && x@ == shown,
    }
}

fn copy_text(s: &String) -> (r: String)
    ensures
        r@ == s@,
{
    s.clone()
}

/// Reads the arguments that follow the program's name: the flags, the
/// values of `--ext` and `--name`, and at most one profile name.
pub fn parse_args(args: &Vec<CliArg>) -> (res: Result<CliAction, SpoutError>)
    ensures
        cli_result(cli_from(args@, 0, empty_model()), res),
{
    let mut cli = Cli {
        profile: None,
        name: None,
        ext: None,
        no_clipboard: false,
        check: false,
        gen_config: false,
        gen_config_force: false,
    };
    let n = args.len();
    let mut i: usize = 0;
    while i < n
        invariant
            i <= n == args@.len(),
            cli_from(args@, 0, empty_model()) == cli_from(args@, i as int, cli.model()),
        decreases n - i,
    {
        let arg = &args[i];
        match &arg.text {
            Some(t) => {
                let s = chars_of(t.as_str());
                if equals_literal(s.as_slice(), "-h") || equals_literal(s.as_slice(), "--help") {
                    return Ok(CliAction::Help);
                } else if equals_literal(s.as_slice(), "-v") || equals_literal(
                    s.as_slice(),
                    "--version",
                ) {
                    return Ok(CliAction::Version);
                } else if equals_literal(s.as_slice(), "-p") || equals_literal(
                    s.as_slice(),
                    "--parse",
                ) {
                    cli.check = true;
                    i += 1;
                } else if equals_literal(s.as_slice(), "-N") || equals_literal(
                    s.as_slice(),
                    "--no-clipboard",
                ) {
                    cli.no_clipboard = true;
                    i += 1;
                } else if equals_literal(s.as_slice(), "-g") || equals_literal(
                    s.as_slice(),
                    "--gen-config",
                ) {
                    cli.gen_config = true;
                    i += 1;
                } else if equals_literal(s.as_slice(), "-G") || equals_literal(
                    s.as_slice(),
                    "--gen-config-force",
                ) {
                    cli.gen_config_force = true;
                    i += 1;
                } else if equals_literal(s.as_slice(), "-x") || equals_literal(s.as_slice(), "--ext")
                    || equals_literal(s.as_slice(), "-n") || equals_literal(s.as_slice(), "--name") {
                    let is_ext = equals_literal(s.as_slice(), "-x") || equals_literal(
                        s.as_slice(),
                        "--ext",
                    );
                    let opt: &'static str = if is_ext {
                        "--ext"
                    } else {
                        "--name"
                    };
                    if i + 1 >= n {
                        return Err(SpoutError::InvalidArgument(concat("missing value for ", opt)));
                    }
                    match &args[i + 1].text {
                        Some(v) => {
                            if is_ext {
                                cli.ext = Some(copy_text(v));
                            } else {
                                cli.name = Some(copy_text(v));
                            }
                        },
                        None => {
                            return Err(SpoutError::InvalidUtf8(opt, copy_text(&args[i + 1].shown)));
                        },
                    }
                    i += 2;
                } else if starts_with_literal(s.as_slice(), "--ext=") {
                    let k = chars_of("--ext=").len();
                    cli.ext = Some(string_from_chars(s.as_slice(), k, s.len()));
                    i += 1;
                } else if starts_with_literal(s.as_slice(), "--name=") {
                    let k = chars_of("--name=").len();
                    cli.name = Some(string_from_chars(s.as_slice(), k, s.len()));
                    i += 1;
                } else if s.len() > 0 && s[0] == '-' {
                    return Err(SpoutError::InvalidArgument(concat("unexpected argument: ", t.as_str())));
                } else if cli.profile.is_none() {
                    cli.profile = Some(copy_text(t));
                    i += 1;
                } else {
                    return Err(
                        SpoutError::InvalidArgument(concat("unexpected argument: ", arg.shown.as_str())),
                    );
                }
            },
            None => {
                if cli.profile.is_none() {
                    return Err(SpoutError::InvalidUtf8("profile name", copy_text(&arg.shown)));
                } else {
                    return Err(
                        SpoutError::InvalidArgument(concat("unexpected argument: ", arg.shown.as_str())),
                    );
                }
            },
        }
    }
    Ok(CliAction::Run(cli))
}

/// The option names, told apart.
proof fn lemma_option_names_distinct()
    ensures
        "-h"@ != "--help"@,
        "-h"@ != "-v"@,
        "-h"@ != "--version"@,
        "-h"@ != "-p"@,
        "-h"@ != "--parse"@,
        "-h"@ != "-N"@,
        "-h"@ != "--no-clipboard"@,
        "-h"@ != "-g"@,
        "-h"@ != "--gen-config"@,
        "-h"@ != "-G"@,
        "-h"@ != "--gen-config-force"@,
        "-h"@ != "-x"@,
        "-h"@ != "--ext"@,
        "-h"@ != "-n"@,
        "-h"@ != "--name"@,
        "--help"@ != "-v"@,
        "--help"@ != "--version"@,
        "--help"@ != "-p"@,
        "--help"@ != "--parse"@,
        "--help"@ != "-N"@,
        "--help"@ != "--no-clipboard"@,
        "--help"@ != "-g"@,
        "--help"@ != "--gen-config"@,
        "--help"@ != "-G"@,
        "--help"@ != "--gen-config-force"@,
        "--help"@ != "-x"@,
        "--help"@ != "--ext"@,
        "--help"@ != "-n"@,
        "--help"@ != "--name"@,
        "-v"@ != "--version"@,
        "-v"@ != "-p"@,
        "-v"@ != "--parse"@,
        "-v"@ != "-N"@,
        "-v"@ != "--no-clipboard"@,
        "-v"@ != "-g"@,
        "-v"@ != "--gen-config"@,
        "-v"@ != "-G"@,
        "-v"@ != "--gen-config-force"@,
        "-v"@ != "-x"@,
        "-v"@ != "--ext"@,
        "-v"@ != "-n"@,
        "-v"@ != "--name"@,
        "--version"@ != "-p"@,
        "--version"@ != "--parse"@,
        "--version"@ != "-N"@,
        "--version"@ != "--no-clipboard"@,
        "--version"@ != "-g"@,
        "--version"@ != "--gen-config"@,
        "--version"@ != "-G"@,
        "--version"@ != "--gen-config-force"@,
        "--version"@ != "-x"@,
        "--version"@ != "--ext"@,
        "--version"@ != "-n"@,
        "--version"@ != "--name"@,
        "-p"@ != "--parse"@,
        "-p"@ != "-N"@,
        "-p"@ != "--no-clipboard"@,
        "-p"@ != "-g"@,
        "-p"@ != "--gen-config"@,
        "-p"@ != "-G"@,
        "-p"@ != "--gen-config-force"@,
        "-p"@ != "-x"@,
        "-p"@ != "--ext"@,
        "-p"@ != "-n"@,
        "-p"@ != "--name"@,
        "--parse"@ != "-N"@,
        "--parse"@ != "--no-clipboard"@,
        "--parse"@ != "-g"@,
        "--parse"@ != "--gen-config"@,
        "--parse"@ != "-G"@,
        "--parse"@ != "--gen-config-force"@,
        "--parse"@ != "-x"@,
        "--parse"@ != "--ext"@,
        "--parse"@ != "-n"@,
        "--parse"@ != "--name"@,
        "-N"@ != "--no-clipboard"@,
        "-N"@ != "-g"@,
        "-N"@ != "--gen-config"@,
        "-N"@ != "-G"@,
        "-N"@ != "--gen-config-force"@,
        "-N"@ != "-x"@,
        "-N"@ != "--ext"@,
        "-N"@ != "-n"@,
        "-N"@ != "--name"@,
        "--no-clipboard"@ != "-g"@,
        "--no-clipboard"@ != "--gen-config"@,
        "--no-clipboard"@ != "-G"@,
        "--no-clipboard"@ != "--gen-config-force"@,
        "--no-clipboard"@ != "-x"@,
        "--no-clipboard"@ != "--ext"@,
        "--no-clipboard"@ != "-n"@,
        "--no-clipboard"@ != "--name"@,
        "-g"@ != "--gen-config"@,
        "-g"@ != "-G"@,
        "-g"@ != "--gen-config-force"@,
        "-g"@ != "-x"@,
        "-g"@ != "--ext"@,
        "-g"@ != "-n"@,
        "-g"@ != "--name"@,
        "--gen-config"@ != "-G"@,
        "--gen-config"@ != "--gen-config-force"@,
        "--gen-config"@ != "-x"@,
        "--gen-config"@ != "--ext"@,
        "--gen-config"@ != "-n"@,
        "--gen-config"@ != "--name"@,
        "-G"@ != "--gen-config-force"@,
        "-G"@ != "-x"@,
        "-G"@ != "--ext"@,
        "-G"@ != "-n"@,
        "-G"@ != "--name"@,
        "--gen-config-force"@ != "-x"@,
        "--gen-config-force"@ != "--ext"@,
        "--gen-config-force"@ != "-n"@,
        "--gen-config-force"@ != "--name"@,
        "-x"@ != "--ext"@,
        "-x"@ != "-n"@,
        "-x"@ != "--name"@,
        "--ext"@ != "-n"@,
        "--ext"@ != "--name"@,
        "-n"@ != "--name"@,
        "-h"@.len() > 0 && "-h"@[0] == '-',
        "--help"@.len() > 0 && "--help"@[0] == '-',
        "-v"@.len() > 0 && "-v"@[0] == '-',
        "--version"@.len() > 0 && "--version"@[0] == '-',
        "-p"@.len() > 0 && "-p"@[0] == '-',
        "--parse"@.len() > 0 && "--parse"@[0] == '-',
        "-N"@.len() > 0 && "-N"@[0] == '-',
        "--no-clipboard"@.len() > 0 && "--no-clipboard"@[0] == '-',
        "-g"@.len() > 0 && "-g"@[0] == '-',
        "--gen-config"@.len() > 0 && "--gen-config"@[0] == '-',
        "-G"@.len() > 0 && "-G"@[0] == '-',
        "--gen-config-force"@.len() > 0 && "--gen-config-force"@[0] == '-',
        "-x"@.len() > 0 && "-x"@[0] == '-',
        "--ext"@.len() > 0 && "--ext"@[0] == '-',
        "-n"@.len() > 0 && "-n"@[0] == '-',
        "--name"@.len() > 0 && "--name"@[0] == '-',
{
    reveal_strlit("-h");
    reveal_strlit("--help");
    reveal_strlit("-v");
    reveal_strlit("--version");
    reveal_strlit("-p");
    reveal_strlit("--parse");
    reveal_strlit("-N");
    reveal_strlit("--no-clipboard");
    reveal_strlit("-g");
    reveal_strlit("--gen-config");
    reveal_strlit("-G");
    reveal_strlit("--gen-config-force");
    reveal_strlit("-x");
    reveal_strlit("--ext");
    reveal_strlit("-n");
    reveal_strlit("--name");
    assert("-h"@.len() != "--help"@.len());
    assert("-h"@[1] != "-v"@[1]);
    assert("-h"@.len() != "--version"@.len());
    assert("-h"@[1] != "-p"@[1]);
    assert("-h"@.len() != "--parse"@.len());
    assert("-h"@[1] != "-N"@[1]);
    assert("-h"@.len() != "--no-clipboard"@.len());
    assert("-h"@[1] != "-g"@[1]);
    assert("-h"@.len() != "--gen-config"@.len());
    assert("-h"@[1] != "-G"@[1]);
    assert("-h"@.len() != "--gen-config-force"@.len());
    assert("-h"@[1] != "-x"@[1]);
    assert("-h"@.len() != "--ext"@.len());
    assert("-h"@[1] != "-n"@[1]);
    assert("-h"@.len() != "--name"@.len());
    assert("--help"@.len() != "-v"@.len());
    assert("--help"@.len() != "--version"@.len());
    assert("--help"@.len() != "-p"@.len());
    assert("--help"@.len() != "--parse"@.len());
    assert("--help"@.len() != "-N"@.len());
    assert("--help"@.len() != "--no-clipboard"@.len());
    assert("--help"@.len() != "-g"@.len());
    assert("--help"@.len() != "--gen-config"@.len());
    assert("--help"@.len() != "-G"@.len());
    assert("--help"@.len() != "--gen-config-force"@.len());
    assert("--help"@.len() != "-x"@.len());
    assert("--help"@.len() != "--ext"@.len());
    assert("--help"@.len() != "-n"@.len());
    assert("--help"@[2] != "--name"@[2]);
    assert("-v"@.len() != "--version"@.len());
    assert("-v"@[1] != "-p"@[1]);
    assert("-v"@.len() != "--parse"@.len());
    assert("-v"@[1] != "-N"@[1]);
    assert("-v"@.len() != "--no-clipboard"@.len());
    assert("-v"@[1] != "-g"@[1]);
    assert("-v"@.len() != "--gen-config"@.len());
    assert("-v"@[1] != "-G"@[1]);
    assert("-v"@.len() != "--gen-config-force"@.len());
    assert("-v"@[1] != "-x"@[1]);
    assert("-v"@.len() != "--ext"@.len());
    assert("-v"@[1] != "-n"@[1]);
    assert("-v"@.len() != "--name"@.len());
    assert("--version"@.len() != "-p"@.len());
    assert("--version"@.len() != "--parse"@.len());
    assert("--version"@.len() != "-N"@.len());
    assert("--version"@.len() != "--no-clipboard"@.len());
    assert("--version"@.len() != "-g"@.len());
    assert("--version"@.len() != "--gen-config"@.len());
    assert("--version"@.len() != "-G"@.len());
    assert("--version"@.len() != "--gen-config-force"@.len());
    assert("--version"@.len() != "-x"@.len());
    assert("--version"@.len() != "--ext"@.len());
    assert("--version"@.len() != "-n"@.len());
    assert("--version"@.len() != "--name"@.len());
    assert("-p"@.len() != "--parse"@.len());
    assert("-p"@[1] != "-N"@[1]);
    assert("-p"@.len() != "--no-clipboard"@.len());
    assert("-p"@[1] != "-g"@[1]);
    assert("-p"@.len() != "--gen-config"@.len());
    assert("-p"@[1] != "-G"@[1]);
    assert("-p"@.len() != "--gen-config-force"@.len());
    assert("-p"@[1] != "-x"@[1]);
    assert("-p"@.len() != "--ext"@.len());
    assert("-p"@[1] != "-n"@[1]);
    assert("-p"@.len() != "--name"@.len());
    assert("--parse"@.len() != "-N"@.len());
    assert("--parse"@.len() != "--no-clipboard"@.len());
    assert("--parse"@.len() != "-g"@.len());
    assert("--parse"@.len() != "--gen-config"@.len());
    assert("--parse"@.len() != "-G"@.len());
    assert("--parse"@.len() != "--gen-config-force"@.len());
    assert("--parse"@.len() != "-x"@.len());
    assert("--parse"@.len() != "--ext"@.len());
    assert("--parse"@.len() != "-n"@.len());
    assert("--parse"@.len() != "--name"@.len());
    assert("-N"@.len() != "--no-clipboard"@.len());
    assert("-N"@[1] != "-g"@[1]);
    assert("-N"@.len() != "--gen-config"@.len());
    assert("-N"@[1] != "-G"@[1]);
    assert("-N"@.len() != "--gen-config-force"@.len());
    assert("-N"@[1] != "-x"@[1]);
    assert("-N"@.len() != "--ext"@.len());
    assert("-N"@[1] != "-n"@[1]);
    assert("-N"@.len() != "--name"@.len());
    assert("--no-clipboard"@.len() != "-g"@.len());
    assert("--no-clipboard"@.len() != "--gen-config"@.len());
    assert("--no-clipboard"@.len() != "-G"@.len());
    assert("--no-clipboard"@.len() != "--gen-config-force"@.len());
    assert("--no-clipboard"@.len() != "-x"@.len());
    assert("--no-clipboard"@.len() != "--ext"@.len());
    assert("--no-clipboard"@.len() != "-n"@.len());
    assert("--no-clipboard"@.len() != "--name"@.len());
    assert("-g"@.len() != "--gen-config"@.len());
    assert("-g"@[1] != "-G"@[1]);
    assert("-g"@.len() != "--gen-config-force"@.len());
    assert("-g"@[1] != "-x"@[1]);
    assert("-g"@.len() != "--ext"@.len());
    assert("-g"@[1] != "-n"@[1]);
    assert("-g"@.len() != "--name"@.len());
    assert("--gen-config"@.len() != "-G"@.len());
    assert("--gen-config"@.len() != "--gen-config-force"@.len());
    assert("--gen-config"@.len() != "-x"@.len());
    assert("--gen-config"@.len() != "--ext"@.len());
    assert("--gen-config"@.len() != "-n"@.len());
    assert("--gen-config"@.len() != "--name"@.len());
    assert("-G"@.len() != "--gen-config-force"@.len());
    assert("-G"@[1] != "-x"@[1]);
    assert("-G"@.len() != "--ext"@.len());
    assert("-G"@[1] != "-n"@[1]);
    assert("-G"@.len() != "--name"@.len());
    assert("--gen-config-force"@.len() != "-x"@.len());
    assert("--gen-config-force"@.len() != "--ext"@.len());
    assert("--gen-config-force"@.len() != "-n"@.len());
    assert("--gen-config-force"@.len() != "--name"@.len());
    assert("-x"@.len() != "--ext"@.len());
    assert("-x"@[1] != "-n"@[1]);
    assert("-x"@.len() != "--name"@.len());
    assert("--ext"@.len() != "-n"@.len());
    assert("--ext"@.len() != "--name"@.len());
    assert("-n"@.len() != "--name"@.len());
}

/// An argument that starts with `--ext=` or `--name=` is none of the option
/// names.
proof fn lemma_prefixed_not_option(s: Seq<char>)
    ensures
        has_prefix(s, "--ext="@) ==> s != "-h"@ && s != "--help"@ && s != "-v"@ && s != "--version"@ && s != "-p"@ && s != "--parse"@ && s != "-N"@ && s != "--no-clipboard"@ && s != "-g"@ && s != "--gen-config"@ && s != "-G"@ && s != "--gen-config-force"@ && s != "-x"@ && s != "--ext"@ && s != "-n"@ && s != "--name"@,
        has_prefix(s, "--name="@) ==> s != "-h"@ && s != "--help"@ && s != "-v"@ && s != "--version"@ && s != "-p"@ && s != "--parse"@ && s != "-N"@ && s != "--no-clipboard"@ && s != "-g"@ && s != "--gen-config"@ && s != "-G"@ && s != "--gen-config-force"@ && s != "-x"@ && s != "--ext"@ && s != "-n"@ && s != "--name"@,
        has_prefix(s, "--name="@) ==> !has_prefix(s, "--ext="@),
{
    reveal_strlit("-h");
    reveal_strlit("--help");
    reveal_strlit("-v");
    reveal_strlit("--version");
    reveal_strlit("-p");
    reveal_strlit("--parse");
    reveal_strlit("-N");
    reveal_strlit("--no-clipboard");
    reveal_strlit("-g");
    reveal_strlit("--gen-config");
    reveal_strlit("-G");
    reveal_strlit("--gen-config-force");
    reveal_strlit("-x");
    reveal_strlit("--ext");
    reveal_strlit("-n");
    reveal_strlit("--name");
    reveal_strlit("--ext=");
    reveal_strlit("--name=");
    if has_prefix(s, "--ext="@) {
        assert("-h"@.len() < "--ext="@.len());
        assert(s.subrange(0, 6)[2] == s[2]);
        assert("--help"@[2] != "--ext="@[2]);
        assert("-v"@.len() < "--ext="@.len());
        assert(s.subrange(0, 6)[2] == s[2]);
        assert("--version"@[2] != "--ext="@[2]);
        assert("-p"@.len() < "--ext="@.len());
        assert(s.subrange(0, 6)[2] == s[2]);
        assert("--parse"@[2] != "--ext="@[2]);
        assert("-N"@.len() < "--ext="@.len());
        assert(s.subrange(0, 6)[2] == s[2]);
        assert("--no-clipboard"@[2] != "--ext="@[2]);
        assert("-g"@.len() < "--ext="@.len());
        assert(s.subrange(0, 6)[2] == s[2]);
        assert("--gen-config"@[2] != "--ext="@[2]);
        assert("-G"@.len() < "--ext="@.len());
        assert(s.subrange(0, 6)[2] == s[2]);
        assert("--gen-config-force"@[2] != "--ext="@[2]);
        assert("-x"@.len() < "--ext="@.len());
        assert("--ext"@.len() < "--ext="@.len());
        assert("-n"@.len() < "--ext="@.len());
        assert(s.subrange(0, 6)[2] == s[2]);
        assert("--name"@[2] != "--ext="@[2]);
    }
    if has_prefix(s, "--name="@) {
        assert("-h"@.len() < "--name="@.len());
        assert("--help"@.len() < "--name="@.len());
        assert("-v"@.len() < "--name="@.len());
        assert(s.subrange(0, 7)[2] == s[2]);
        assert("--version"@[2] != "--name="@[2]);
        assert("-p"@.len() < "--name="@.len());
        assert(s.subrange(0, 7)[2] == s[2]);
        assert("--parse"@[2] != "--name="@[2]);
        assert("-N"@.len() < "--name="@.len());
        assert(s.subrange(0, 7)[3] == s[3]);
        assert("--no-clipboard"@[3] != "--name="@[3]);
        assert("-g"@.len() < "--name="@.len());
        assert(s.subrange(0, 7)[2] == s[2]);
        assert("--gen-config"@[2] != "--name="@[2]);
        assert("-G"@.len() < "--name="@.len());
        assert(s.subrange(0, 7)[2] == s[2]);
        assert("--gen-config-force"@[2] != "--name="@[2]);
        assert("-x"@.len() < "--name="@.len());
        assert("--ext"@.len() < "--name="@.len());
        assert("-n"@.len() < "--name="@.len());
        assert("--name"@.len() < "--name="@.len());
    }
    if has_prefix(s, "--name="@) && has_prefix(s, "--ext="@) {
        assert(s.subrange(0, 7)[2] == s[2] && s.subrange(0, 6)[2] == s[2]);
    }
}

/// What each option does: `-h`/`--help` and `-v`/`--version` stop reading
/// with the help or the version; `-p`/`--parse` asks for a check of the
/// configuration, `-N`/`--no-clipboard` skips the clipboard, `-g`/
/// `--gen-config` and `-G`/`--gen-config-force` ask for a default
/// configuration; `--ext=V` and `--name=V` set the extension or the name to
/// `V`; any other option starting with `-` is refused; and the first other
/// argument is the profile. Every other option is left as it was, and
/// reading goes on with the next argument.
pub proof fn lemma_flag_options(args: Seq<CliArg>, i: int, st: CliModel)
    requires
        0 <= i < args.len(),
        args[i].text is Some,
    ensures
        (args[i].text->0@ == "-h"@ || args[i].text->0@ == "--help"@) ==> cli_from(args, i, st)
            == CliOutcome::Help,
        (args[i].text->0@ == "-v"@ || args[i].text->0@ == "--version"@) ==> cli_from(args, i, st)
            == CliOutcome::Version,
        (args[i].text->0@ == "-p"@ || args[i].text->0@ == "--parse"@) ==> cli_from(args, i, st)
            == cli_from(args, i + 1, (CliModel { check: true, ..st })),
        (args[i].text->0@ == "-N"@ || args[i].text->0@ == "--no-clipboard"@) ==> cli_from(
            args,
            i,
            st,
        ) == cli_from(args, i + 1, (CliModel { no_clipboard: true, ..st })),
        (args[i].text->0@ == "-g"@ || args[i].text->0@ == "--gen-config"@) ==> cli_from(
            args,
            i,
            st,
        ) == cli_from(args, i + 1, (CliModel { gen_config: true, ..st })),
        (args[i].text->0@ == "-G"@ || args[i].text->0@ == "--gen-config-force"@) ==> cli_from(
            args,
            i,
            st,
        ) == cli_from(args, i + 1, (CliModel { gen_config_force: true, ..st })),
        (args[i].text->0@.len() >= 6 && args[i].text->0@.subrange(0, 6) == "--ext="@) ==> cli_from(
            args,
            i,
            st,
        ) == cli_from(
            args,
            i + 1,
            (CliModel {
                ext: Some(args[i].text->0@.subrange(6, args[i].text->0@.len() as int)),
                ..st
            }),
        ),
        (args[i].text->0@.len() >= 7 && args[i].text->0@.subrange(0, 7) == "--name="@)
            ==> cli_from(args, i, st) == cli_from(
            args,
            i + 1,
            (CliModel {
                name: Some(args[i].text->0@.subrange(7, args[i].text->0@.len() as int)),
                ..st
            }),
        ),
        (args[i].text->0@.len() == 0 || args[i].text->0@[0] != '-') && st.profile is None
            ==> cli_from(args, i, st) == cli_from(
            args,
            i + 1,
            (CliModel { profile: Some(args[i].text->0@), ..st }),
        ),
{
    lemma_option_names_distinct();
    let s = args[i].text->0@;
    lemma_prefixed_not_option(s);
    reveal_strlit("--ext=");
    reveal_strlit("--name=");
    if s.len() > 0 && s[0] != '-' {
        if s.len() >= 6 {
            assert(s.subrange(0, 6)[0] == s[0]);
        }
        if s.len() >= 7 {
            assert(s.subrange(0, 7)[0] == s[0]);
        }
    }
}

/// `--ext V` and `-x V` set the extension to `V`, and `--name V` and `-n V`
/// set the name to `V`, leaving every other option as it was; reading goes
/// on after the value, whatever the value is.
pub proof fn lemma_value_options(args: Seq<CliArg>, i: int, st: CliModel)
    requires
        0 <= i,
        i + 1 < args.len(),
        args[i].text is Some,
        args[i + 1].text is Some,
    ensures
        (args[i].text->0@ == "--ext"@ || args[i].text->0@ == "-x"@) ==> cli_from(args, i, st)
            == cli_from(args, i + 2, (CliModel { ext: Some(args[i + 1].text->0@), ..st })),
        (args[i].text->0@ == "--name"@ || args[i].text->0@ == "-n"@) ==> cli_from(args, i, st)
            == cli_from(args, i + 2, (CliModel { name: Some(args[i + 1].text->0@), ..st })),
{
    lemma_option_names_distinct();
}

/// The errors in reading a command line: `--ext`, `-x`, `--name` or `-n` as
/// the last argument lacks its value; a value, or a profile name, that is
/// not UTF-8 is reported with what it was for; an argument that starts
/// with `-` and is no option is unexpected, and so is a second profile name.
pub proof fn lemma_cli_errors(args: Seq<CliArg>, i: int, st: CliModel)
    requires
        0 <= i < args.len(),
    ensures
        args[i].text matches Some(t) && (t@ == "--ext"@ || t@ == "-x"@) && i + 1 == args.len()
            ==> cli_from(args, i, st) == CliOutcome::BadArgument("missing value for --ext"@),
        args[i].text matches Some(t) && (t@ == "--name"@ || t@ == "-n"@) && i + 1 == args.len()
            ==> cli_from(args, i, st) == CliOutcome::BadArgument("missing value for --name"@),
        args[i].text matches Some(t) && (t@ == "--ext"@ || t@ == "-x"@) && i + 1 < args.len()
            && args[i + 1].text is None ==> cli_from(args, i, st) == CliOutcome::BadUtf8(
            "--ext"@,
            args[i + 1].shown@,
        ),
        args[i].text matches Some(t) && (t@ == "--name"@ || t@ == "-n"@) && i + 1 < args.len()
            && args[i + 1].text is None ==> cli_from(args, i, st) == CliOutcome::BadUtf8(
            "--name"@,
            args[i + 1].shown@,
        ),
        args[i].text is Some && args[i].text->0@.len() > 0 && args[i].text->0@[0] == '-'
            && args[i].text->0@ != "-h"@ && args[i].text->0@ != "--help"@ && args[i].text->0@ != "-v"@ && args[i].text->0@ != "--version"@ && args[i].text->0@ != "-p"@ && args[i].text->0@ != "--parse"@ && args[i].text->0@ != "-N"@ && args[i].text->0@ != "--no-clipboard"@ && args[i].text->0@ != "-g"@ && args[i].text->0@ != "--gen-config"@ && args[i].text->0@ != "-G"@ && args[i].text->0@ != "--gen-config-force"@ && args[i].text->0@ != "-x"@ && args[i].text->0@ != "--ext"@ && args[i].text->0@ != "-n"@ && args[i].text->0@ != "--name"@ && !(args[i].text->0@.len() >= 6 && args[i].text->0@.subrange(0, 6)
            == "--ext="@) && !(args[i].text->0@.len() >= 7 && args[i].text->0@.subrange(0, 7)
            == "--name="@) ==> cli_from(args, i, st) == CliOutcome::BadArgument(
            "unexpected argument: "@ + args[i].text->0@,
        ),
        args[i].text is Some && (args[i].text->0@.len() == 0 || args[i].text->0@[0] != '-')
            && st.profile is Some ==> cli_from(args, i, st) == CliOutcome::BadArgument(
            "unexpected argument: "@ + args[i].shown@,
        ),
        args[i].text is None && st.profile is None ==> cli_from(args, i, st)
            == CliOutcome::BadUtf8("profile name"@, args[i].shown@),
        args[i].text is None && st.profile is Some ==> cli_from(args, i, st)
            == CliOutcome::BadArgument("unexpected argument: "@ + args[i].shown@),
{
    lemma_option_names_distinct();
    reveal_strlit("missing value for ");
    reveal_strlit("missing value for --ext");
    reveal_strlit("missing value for --name");
    reveal_strlit("--ext");
    reveal_strlit("--name");
    reveal_strlit("--ext=");
    reveal_strlit("--name=");
    assert("missing value for "@ + "--ext"@ =~= "missing value for --ext"@);
    assert("missing value for "@ + "--name"@ =~= "missing value for --name"@);
    if args[i].text is Some {
        let s = args[i].text->0@;
        lemma_prefixed_not_option(s);
        if s.len() > 0 && s[0] != '-' {
            if s.len() >= 6 {
                assert(s.subrange(0, 6)[0] == s[0]);
            }
            if s.len() >= 7 {
                assert(s.subrange(0, 7)[0] == s[0]);
            }
        }
    }
}

/// A command line of just `--ext V` or `-x V` runs with the extension `V` and
/// no other option; `--name V` or `-n V` runs with the name `V`.
pub proof fn lemma_lone_value_option(opt: CliArg, val: CliArg)
    requires
        opt.text is Some,
        val.text is Some,
    ensures
        (opt.text->0@ == "--ext"@ || opt.text->0@ == "-x"@) ==> cli_from(seq![opt, val], 0, empty_model())
            == CliOutcome::Run((CliModel { ext: Some(val.text->0@), ..empty_model() })),
        (opt.text->0@ == "--name"@ || opt.text->0@ == "-n"@) ==> cli_from(seq![opt, val], 0, empty_model())
            == CliOutcome::Run((CliModel { name: Some(val.text->0@), ..empty_model() })),
{
    let args = seq![opt, val];
    lemma_value_options(args, 0, empty_model());
}

/// What a run does, by its options: the configuration options come first,
/// in the order `-G`, `-g`, `-p`; without any of them it uploads.
#[derive(Debug, Clone, Copy, PartialEq, Eq)]
pub enum RunMode {
    /// Write the default configuration, over an existing one.
    WriteConfigForce,
    /// Write the default configuration where there is none.
    WriteConfig,
    /// Load the configuration and report whether it is valid.
    CheckConfig,
    /// Read stdin and upload it.
    Upload,
}

/// The mode a run with the options `cli` takes.
pub fn run_mode(cli: &Cli) -> (m: RunMode)
    ensures
        m == (if cli.gen_config_force {
            RunMode::WriteConfigForce
        } else if cli.gen_config {
            RunMode::WriteConfig
        } else if cli.check {
            RunMode::CheckConfig
        } else {
            RunMode::Upload
        }),
{
    if cli.gen_config_force {
        RunMode::WriteConfigForce
    } else if cli.gen_config {
        RunMode::WriteConfig
    } else if cli.check {
        RunMode::CheckConfig
    } else {
        RunMode::Upload
    }
}

} // verus!
