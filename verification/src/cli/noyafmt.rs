//! Command-line arguments of the `noyafmt` formatter.
//!
//! `noyafmt [OPTIONS] [FILE...]`: `--check` reports files that need
//! formatting, `--write` rewrites them in place, `--stdin` reads
//! standard input; `--indent <N>` (or `--indent=N`) sets the width;
//! `--` ends the options.
use vstd::prelude::*;

use crate::path::{parse_usize, spec_parse_usize};
use crate::text::{chars_of, owned_string, push_str, same_text, starts_with_text};

verus! {

/// Parsed `noyafmt` options.
#[derive(Debug, Default)]
pub struct Args {
    /// Report files that would change, changing nothing.
    pub check: bool,
    /// Rewrite each file in place.
    pub write: bool,
    /// Read standard input, write standard output.
    pub stdin: bool,
    /// Indentation width, when given.
    pub indent: Option<usize>,
    /// Files to format, in order.
    pub files: Vec<String>,
}

/// Why parsing stopped without a set of options to act on.
#[derive(Debug)]
pub enum ArgError {
    /// `-h` / `--help` was given.
    Help,
    /// `-V` / `--version` was given.
    Version,
    /// Invalid usage, with the message to print.
    Bad(String),
}

/// [`Args`] as plain values.
pub struct ArgsModel {
    pub check: bool,
    pub write: bool,
    pub stdin: bool,
    pub indent: Option<usize>,
    pub files: Seq<Seq<char>>,
}

/// [`ArgError`] as plain values.
pub enum ArgErrorModel {
    Help,
    Version,
    Bad(Seq<char>),
}

impl View for Args {
    type V = ArgsModel;

    open spec fn view(&self) -> ArgsModel {
        ArgsModel {
            check: self.check,
            write: self.write,
            stdin: self.stdin,
            indent: self.indent,
            files: texts(self.files@),
        }
    }
}

impl View for ArgError {
    type V = ArgErrorModel;

    open spec fn view(&self) -> ArgErrorModel {
        match self {
            ArgError::Help => ArgErrorModel::Help,
            ArgError::Version => ArgErrorModel::Version,
            ArgError::Bad(m) => ArgErrorModel::Bad(m@),
        }
    }
}

/// The texts of a run of strings.
pub open spec fn texts(v: Seq<String>) -> Seq<Seq<char>> {
    v.map_values(|s: String| s@)
}

/// No options and no files.
pub open spec fn no_args() -> ArgsModel {
    ArgsModel { check: false, write: false, stdin: false, indent: None, files: seq![] }
}

/// The refusal of an indent that is not a number.
pub open spec fn bad_indent(v: Seq<char>) -> ArgErrorModel {
    ArgErrorModel::Bad("--indent: not a non-negative integer: "@ + v)
}

/// Read the arguments after the program name, left to right, into
/// `a`: the first help or version flag, unknown option or bad indent
/// ends the scan with its outcome; `--` makes every remaining argument
/// a file.
pub open spec fn scan_args(argv: Seq<Seq<char>>, a: ArgsModel) -> Result<ArgsModel, ArgErrorModel>
    decreases argv.len(),
{
    if argv.len() == 0 {
        Ok(a)
    } else {
        let arg = argv[0];
        let rest = argv.drop_first();
        if arg == "-h"@ || arg == "--help"@ {
            Err(ArgErrorModel::Help)
        } else if arg == "-V"@ || arg == "--version"@ {
            Err(ArgErrorModel::Version)
        } else if arg == "--check"@ {
            scan_args(rest, ArgsModel { check: true, ..a })
        } else if arg == "--write"@ {
            scan_args(rest, ArgsModel { write: true, ..a })
        } else if arg == "--stdin"@ {
            scan_args(rest, ArgsModel { stdin: true, ..a })
        } else if arg == "--indent"@ {
            if rest.len() == 0 {
                Err(ArgErrorModel::Bad("--indent requires a value"@))
            } else {
                match spec_parse_usize(rest[0]) {
                    Some(n) => scan_args(rest.drop_first(), ArgsModel { indent: Some(n), ..a }),
                    None => Err(bad_indent(rest[0])),
                }
            }
        } else if arg == "--"@ {
            Ok(ArgsModel { files: a.files + rest, ..a })
        } else if arg.len() >= 9 && arg.take(9) == "--indent="@ {
            match spec_parse_usize(arg.skip(9)) {
                Some(n) => scan_args(rest, ArgsModel { indent: Some(n), ..a }),
                None => Err(bad_indent(arg.skip(9))),
            }
        } else if arg.len() > 0 && arg[0] == '-' {
            Err(ArgErrorModel::Bad("unknown option: "@ + arg))
        } else {
            scan_args(rest, ArgsModel { files: a.files.push(arg), ..a })
        }
    }
}

/// What [`parse_args`] gives for `argv` (whose first element is the
/// program name): the scanned options, unless `--check` meets
/// `--write`, `--stdin` meets files, or there is neither.
pub open spec fn spec_parse_args(argv: Seq<Seq<char>>) -> Result<ArgsModel, ArgErrorModel> {
    let rest = if argv.len() == 0 {
        argv
    } else {
        argv.drop_first()
    };
    match scan_args(rest, no_args()) {
        Ok(a) => if a.check && a.write {
            Err(ArgErrorModel::Bad("--check and --write are mutually exclusive"@))
        } else if a.stdin && a.files.len() > 0 {
            Err(ArgErrorModel::Bad("--stdin cannot be combined with FILE arguments"@))
        } else if !a.stdin && a.files.len() == 0 {
            Err(ArgErrorModel::Bad("no FILE arguments and --stdin not given (use --help)"@))
        } else {
            Ok(a)
        },
        Err(e) => Err(e),
    }
}

/// An outcome of the scan that is an error is the parse's outcome.
proof fn lemma_scan_error(argv: Seq<Seq<char>>, e: ArgErrorModel)
    requires
        scan_args(
            if argv.len() == 0 {
                argv
            } else {
                argv.drop_first()
            },
            no_args(),
        ) == Err::<ArgsModel, ArgErrorModel>(e),
    ensures
        spec_parse_args(argv) == Err::<ArgsModel, ArgErrorModel>(e),
{
}

/// A `Bad` error holding `head` followed by `tail`.
fn bad_with(head: &str, tail: &str) -> (e: ArgError)
    ensures
        e@ == ArgErrorModel::Bad(head@ + tail@),
{
    let mut m = owned_string(head);
    push_str(&mut m, tail);
    ArgError::Bad(m)
}

/// A `Bad` error holding `msg`.
fn bad(msg: &str) -> (e: ArgError)
    ensures
        e@ == ArgErrorModel::Bad(msg@),
{
    ArgError::Bad(owned_string(msg))
}

/// Parse `noyafmt`'s command line (program name first); see
/// [`spec_parse_args`].
pub fn parse_args(argv: Vec<String>) -> (r: Result<Args, ArgError>)
    ensures
        match r {
            Ok(a) => spec_parse_args(texts(argv@)) == Ok::<
                ArgsModel,
                ArgErrorModel,
            >(a@),
            Err(e) => spec_parse_args(texts(argv@)) == Err::<
                ArgsModel,
                ArgErrorModel,
            >(e@),
        },
{
    let ghost all = texts(argv@);
    let mut a = Args { check: false, write: false, stdin: false, indent: None, files: Vec::new() };
    let n = argv.len();
    let mut i: usize = if n == 0 {
        0
    } else {
        1
    };
    let ghost rest0 = if all.len() == 0 {
        all
    } else {
        all.drop_first()
    };
    proof {
        assert(rest0 =~= all.skip(i as int));
        assert(a@.files =~= Seq::<Seq<char>>::empty());
        assert(a@ == no_args());
    }
    let ghost outcome = scan_args(rest0, no_args());
    while i < n
        invariant
            n == argv@.len(),
            all == texts(argv@),
            i <= n,
            rest0 == (if all.len() == 0 {
                all
            } else {
                all.drop_first()
            }),
            outcome == scan_args(rest0, no_args()),
            outcome == scan_args(all.skip(i as int), a@),
        ensures
            i == n,
            outcome == scan_args(all.skip(i as int), a@),
        decreases n - i,
    {
        let arg = argv[i].as_str();
        let ghost rest = all.skip(i as int);
        let ghost tail = rest.drop_first();
        proof {
            assert(rest[0] == arg@);
            assert(tail =~= all.skip(i + 1));
            reveal_strlit("--indent=");
            reveal_strlit("-");
        }
        if same_text(arg, "-h") || same_text(arg, "--help") {
            assert(scan_args(rest, a@) == Err::<ArgsModel, ArgErrorModel>(ArgErrorModel::Help));
            proof {
                lemma_scan_error(all, ArgErrorModel::Help);
            }
            return Err(ArgError::Help);
        } else if same_text(arg, "-V") || same_text(arg, "--version") {
            assert(scan_args(rest, a@) == Err::<ArgsModel, ArgErrorModel>(ArgErrorModel::Version));
            proof {
                lemma_scan_error(all, ArgErrorModel::Version);
            }
            return Err(ArgError::Version);
        } else if same_text(arg, "--check") {
            a.check = true;
        } else if same_text(arg, "--write") {
            a.write = true;
        } else if same_text(arg, "--stdin") {
            a.stdin = true;
        } else if same_text(arg, "--indent") {
            if i + 1 >= n {
                return Err(bad("--indent requires a value"));
            }
            let v = argv[i + 1].as_str();
            let digits = chars_of(v);
            proof {
                assert(tail[0] == v@);
                assert(tail.drop_first() =~= all.skip(i + 2));
            }
            match parse_usize(digits.as_slice()) {
                Some(k) => {
                    a.indent = Some(k);
                    i += 1;
                },
                None => {
                    let e = bad_with("--indent: not a non-negative integer: ", v);
                    proof {
                        assert(scan_args(rest, a@) == Err::<ArgsModel, ArgErrorModel>(e@));
                        lemma_scan_error(all, e@);
                    }
                    return Err(e);
                },
            }
        } else if same_text(arg, "--") {
            let mut j = i + 1;
            let ghost files0 = a@.files;
            let ghost a0 = a@;
            proof {
                assert(tail.take(0) =~= Seq::<Seq<char>>::empty());
            }
            while j < n
                invariant
                    n == argv@.len(),
                    all == texts(argv@),
                    i < j <= n,
                    tail == all.skip(i + 1),
                    a@.files == files0 + tail.take(j - i - 1),
                    a.check == a0.check && a.write == a0.write && a.stdin == a0.stdin && a.indent
                        == a0.indent,
                decreases n - j,
            {
                let ghost before = a@.files;
                a.files.push(argv[j].clone());
                proof {
                    assert(a@.files =~= before.push(all[j as int]));
                    assert(tail.take(j - i) =~= tail.take(j - i - 1).push(all[j as int]));
                    assert(a@.files =~= files0 + tail.take(j - i));
                }
                j += 1;
            }
            proof {
                assert(tail.take(n - i - 1) =~= tail);
                assert(a@.files =~= a0.files + tail);
                assert(a@ == ArgsModel { files: a0.files + tail, ..a0 });
                assert(all.skip(n as int) =~= Seq::<Seq<char>>::empty());
            }
            i = n;
            break ;
        } else if starts_with_text(arg, "--indent=") {
            let chars = chars_of(arg);
            proof {
                reveal_strlit("--indent=");
            }
            let v = chars.as_slice().split_at(9).1;
            proof {
                assert(v@ =~= arg@.skip(9));
            }
            match parse_usize(v) {
                Some(k) => {
                    a.indent = Some(k);
                },
                None => {
                    let mut m = owned_string("--indent: not a non-negative integer: ");
                    let mut k: usize = 9;
                    let ghost head = m@;
                    while k < chars.len()
                        invariant
                            9 <= k <= chars@.len(),
                            m@ == head + chars@.subrange(9, k as int),
                        decreases chars@.len() - k,
                    {
                        crate::text::push_char(&mut m, chars[k]);
                        assert(chars@.subrange(9, k + 1) =~= chars@.subrange(9, k as int).push(
                            chars@[k as int],
                        ));
                        k += 1;
                    }
                    proof {
                        assert(chars@.subrange(9, chars@.len() as int) =~= arg@.skip(9));
                    }
                    return Err(ArgError::Bad(m));
                },
            }
        } else if starts_with_text(arg, "-") {
            proof {
                reveal_strlit("-");
            }
            let e = bad_with("unknown option: ", arg);
            proof {
                assert(arg@.take(1)[0] == arg@[0]);
                assert(arg@[0] == '-');
                assert(scan_args(rest, a@) == Err::<ArgsModel, ArgErrorModel>(e@));
                lemma_scan_error(all, e@);
            }
            return Err(e);
        } else {
            proof {
                reveal_strlit("-");
            }
            let ghost before = a@.files;
            a.files.push(argv[i].clone());
            proof {
                assert(a@.files =~= before.push(arg@));
                if arg@.len() > 0 && arg@[0] == '-' {
                    assert(arg@.take(1) =~= "-"@);
                }
            }
        }
        i += 1;
    }
    proof {
        assert(all.skip(i as int) =~= Seq::<Seq<char>>::empty());
    }
    if a.check && a.write {
        return Err(bad("--check and --write are mutually exclusive"));
    }
    if a.stdin && a.files.len() > 0 {
        return Err(bad("--stdin cannot be combined with FILE arguments"));
    }
    if !a.stdin && a.files.len() == 0 {
        return Err(bad("no FILE arguments and --stdin not given (use --help)"));
    }
    Ok(a)
}

} // verus!
