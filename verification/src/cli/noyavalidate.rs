//! Command-line arguments of the `noyavalidate` checker.
//!
//! `noyavalidate [OPTIONS] [FILE]`: one optional file (`-`, or none,
//! for standard input), `-q` to keep quiet on success, `--` before a
//! file name that starts with a dash.
use vstd::prelude::*;

use crate::cli::noyafmt::texts;
use crate::text::{owned_string, push_str, same_text, starts_with_text};

verus! {

/// What the command line asks for.
pub enum Action {
    /// Validate the file (standard input when `None`).
    Validate { path: Option<String>, quiet: bool },
    /// Print the usage text.
    Help,
    /// Print the version.
    Version,
    /// Invalid usage, with the message to print.
    Error(String),
}

/// [`Action`] as plain values.
pub enum ActionModel {
    Validate { path: Option<Seq<char>>, quiet: bool },
    Help,
    Version,
    Error(Seq<char>),
}

impl View for Action {
    type V = ActionModel;

    open spec fn view(&self) -> ActionModel {
        match self {
            Action::Validate { path, quiet } => ActionModel::Validate {
                path: match path {
                    Some(p) => Some(p@),
                    None => None,
                },
                quiet: *quiet,
            },
            Action::Help => ActionModel::Help,
            Action::Version => ActionModel::Version,
            Action::Error(m) => ActionModel::Error(m@),
        }
    }
}

/// The refusal of a second file.
pub open spec fn too_many() -> ActionModel {
    ActionModel::Error("too many positional arguments"@)
}

/// The outcome once every argument is read: refuse `-` together with
/// a file, validate otherwise.
pub open spec fn finish_action(path: Option<Seq<char>>, quiet: bool, stdin: bool) -> ActionModel {
    if stdin && path is Some {
        ActionModel::Error("cannot combine '-' with a FILE argument"@)
    } else {
        ActionModel::Validate { path, quiet }
    }
}

/// Read the arguments after the program name, left to right: the
/// first help or version flag, unknown option or second file decides;
/// `--` takes at most one more argument, as the file.
pub open spec fn scan_action(
    argv: Seq<Seq<char>>,
    path: Option<Seq<char>>,
    quiet: bool,
    stdin: bool,
) -> ActionModel
    decreases argv.len(),
{
    if argv.len() == 0 {
        finish_action(path, quiet, stdin)
    } else {
        let arg = argv[0];
        let rest = argv.drop_first();
        if arg == "-h"@ || arg == "--help"@ {
            ActionModel::Help
        } else if arg == "-V"@ || arg == "--version"@ {
            ActionModel::Version
        } else if arg == "-q"@ || arg == "--quiet"@ {
            scan_action(rest, path, true, stdin)
        } else if arg == "-"@ {
            scan_action(rest, path, quiet, true)
        } else if arg == "--"@ {
            if rest.len() == 0 {
                finish_action(path, quiet, stdin)
            } else if path is Some || rest.len() >= 2 {
                too_many()
            } else {
                finish_action(Some(rest[0]), quiet, stdin)
            }
        } else if arg.len() > 0 && arg[0] == '-' {
            ActionModel::Error("unknown option: "@ + arg)
        } else if path is Some {
            too_many()
        } else {
            scan_action(rest, Some(arg), quiet, stdin)
        }
    }
}

/// What [`parse_args`] gives for `argv` (program name first).
pub open spec fn spec_parse_args(argv: Seq<Seq<char>>) -> ActionModel {
    scan_action(
        if argv.len() == 0 {
            argv
        } else {
            argv.drop_first()
        },
        None,
        false,
        false,
    )
}

/// The outcome once every argument is read (see [`finish_action`]).
fn finish(path: Option<String>, quiet: bool, stdin: bool) -> (a: Action)
    ensures
        a@ == finish_action(
            match path {
                Some(p) => Some(p@),
                None => None,
            },
            quiet,
            stdin,
        ),
{
    if stdin && path.is_some() {
        return Action::Error(owned_string("cannot combine '-' with a FILE argument"));
    }
    Action::Validate { path, quiet }
}

/// Parse `noyavalidate`'s command line (program name first); see
/// [`spec_parse_args`].
pub fn parse_args(argv: Vec<String>) -> (r: Action)
    ensures
        r@ == spec_parse_args(texts(argv@)),
{
    let ghost all = texts(argv@);
    let n = argv.len();
    let mut path: Option<String> = None;
    let mut quiet = false;
    let mut stdin_explicit = false;
    let mut i: usize = if n == 0 {
        0
    } else {
        1
    };
    proof {
        let rest0 = if all.len() == 0 {
            all
        } else {
            all.drop_first()
        };
        assert(rest0 =~= all.skip(i as int));
    }
    while i < n
        invariant
            n == argv@.len(),
            all == texts(argv@),
            i <= n,
            spec_parse_args(all) == scan_action(
                all.skip(i as int),
                match path {
                    Some(p) => Some(p@),
                    None => None,
                },
                quiet,
                stdin_explicit,
            ),
        decreases n - i,
    {
        let arg = argv[i].as_str();
        let ghost rest = all.skip(i as int);
        let ghost tail = rest.drop_first();
        proof {
            assert(rest[0] == arg@);
            assert(tail =~= all.skip(i + 1));
            reveal_strlit("-");
        }
        if same_text(arg, "-h") || same_text(arg, "--help") {
            return Action::Help;
        } else if same_text(arg, "-V") || same_text(arg, "--version") {
            return Action::Version;
        } else if same_text(arg, "-q") || same_text(arg, "--quiet") {
            quiet = true;
        } else if same_text(arg, "-") {
            stdin_explicit = true;
        } else if same_text(arg, "--") {
            if i + 1 >= n {
                return finish(path, quiet, stdin_explicit);
            }
            if path.is_some() || i + 2 < n {
                return Action::Error(owned_string("too many positional arguments"));
            }
            proof {
                assert(tail[0] == argv@[i + 1]@);
            }
            return finish(Some(argv[i + 1].clone()), quiet, stdin_explicit);
        } else if starts_with_text(arg, "-") {
            proof {
                assert(arg@.take(1)[0] == arg@[0]);
            }
            let mut m = owned_string("unknown option: ");
            push_str(&mut m, arg);
            return Action::Error(m);
        } else {
            proof {
                if arg@.len() > 0 && arg@[0] == '-' {
                    assert(arg@.take(1) =~= "-"@);
                }
            }
            if path.is_some() {
                return Action::Error(owned_string("too many positional arguments"));
            }
            path = Some(argv[i].clone());
        }
        i += 1;
    }
    proof {
        assert(all.skip(i as int) =~= Seq::<Seq<char>>::empty());
    }
    finish(path, quiet, stdin_explicit)
}

} // verus!
