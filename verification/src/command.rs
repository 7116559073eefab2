//! Command resolution: classifying a parsed command name as a builtin, an
//! external executable found on the search path, or not found.
use crate::text::{chars_of, push_char, string_eq_str};
use crate::tokenizer::{command_args_of, command_name_of, join_spaces, parse_command_args};
use crate::utils::{any_dir_has, first_hit, joined_path, locate_command_in_paths, SearchDir};
use vstd::prelude::*;
use vstd::string::StringExecFns;

verus! {

/// A resolved command, created fresh per input line and consumed by the
/// dispatcher: a validated `exit`, an `echo` with its joined text, a `type`
/// report, an external program with its location, or an invalid command.
#[derive(Debug, PartialEq)]
pub enum MyShellCommand {
    Exit(u8),
    Echo(String),
    Type(Result<PathAndType, String>),
    ExternalProgram(ExternalProgramNameAndArgs),
    Invalid,
}

/// An external command ready to run: its bare name, the full path it was
/// found under, and the full argument list, unmodified.
#[derive(Debug, PartialEq)]
pub struct ExternalProgramNameAndArgs {
    pub name: String,
    pub path: String,
    pub args: Vec<String>,
}

/// What `type` reports for a name: the command, and the path it was found
/// under, or `None` for a shell builtin.
#[derive(Debug, PartialEq)]
pub struct PathAndType {
    pub path: Option<String>,
    pub command: String,
}

/// Errors of the search-path scan.
#[derive(Debug, PartialEq)]
pub enum ShellErrors {
    FileNotFoundInPath,
    NoFilesInPATH,
}

impl ShellErrors {
    /// A one-line description of the error.
    pub fn message(&self) -> (m: &'static str)
        ensures
            self is FileNotFoundInPath ==> m@ == "File is not in $PATH"@,
            self is NoFilesInPATH ==> m@ == "No executable files were found in $PATH"@,
    {
        match self {
            ShellErrors::FileNotFoundInPath => "File is not in $PATH",
            ShellErrors::NoFilesInPATH => "No executable files were found in $PATH",
        }
    }
}

/// The fixed builtin set: `exit`, `echo` and `type`.
pub open spec fn is_builtin(name: Seq<char>) -> bool {
    name == "exit"@ || name == "echo"@ || name == "type"@
}

/// The names of the builtin commands, in a fixed order.
pub fn get_built_in_commands() -> (r: Vec<String>)
    ensures
        r.deep_view() == seq!["exit"@, "echo"@, "type"@],
        forall|w: Seq<char>| is_builtin(w) <==> r.deep_view().contains(w),
{
    let mut v: Vec<String> = Vec::new();
    v.push(String::from_str("exit"));
    v.push(String::from_str("echo"));
    v.push(String::from_str("type"));
    proof {
        assert(v.deep_view() =~= seq!["exit"@, "echo"@, "type"@]);
        assert forall|w: Seq<char>| is_builtin(w) <==> v.deep_view().contains(w) by {
            if is_builtin(w) {
                if w == "exit"@ {
                    assert(v.deep_view()[0] == w);
                } else if w == "echo"@ {
                    assert(v.deep_view()[1] == w);
                } else {
                    assert(v.deep_view()[2] == w);
                }
            }
        }
    }
    v
}

/// Whether the name is one of the builtin commands.
pub fn is_builtin_name(name: &String) -> (b: bool)
    ensures
        b == is_builtin(name@),
{
    string_eq_str(name, "exit") || string_eq_str(name, "echo") || string_eq_str(name, "type")
}

/// A decimal digit.
pub open spec fn is_digit(c: char) -> bool {
    48 <= c as u32 <= 57
}

/// The value of a decimal digit.
pub open spec fn digit_val(c: char) -> int {
    c as u32 - 48
}

/// The value of a string of decimal digits, most significant first.
pub open spec fn digits_val(s: Seq<char>) -> int
    decreases s.len(),
{
    if s.len() == 0 {
        0
    } else {
        digits_val(s.drop_last()) * 10 + digit_val(s.last())
    }
}

/// The digits of a decimal numeral: everything after an optional leading
/// plus sign.
pub open spec fn numeral_digits(s: Seq<char>) -> Seq<char> {
    if s.len() > 0 && s[0] == '+' {
        s.drop_first()
    } else {
        s
    }
}

/// Whether the string parses as an unsigned byte: an optional plus sign,
/// then one or more decimal digits, with value at most 255.
pub open spec fn is_u8_numeral(s: Seq<char>) -> bool {
    let d = numeral_digits(s);
    d.len() > 0 && (forall|i: int| 0 <= i < d.len() ==> is_digit(d[i])) && digits_val(d) <= 255
}

/// The value of an unsigned-byte numeral.
pub open spec fn u8_numeral_val(s: Seq<char>) -> int {
    digits_val(numeral_digits(s))
}

/// A digit string has a non-negative value.
proof fn lemma_digits_val_nonneg(s: Seq<char>)
    requires
        forall|i: int| 0 <= i < s.len() ==> is_digit(s[i]),
    ensures
        digits_val(s) >= 0,
    decreases s.len(),
{
    if s.len() > 0 {
        lemma_digits_val_nonneg(s.drop_last());
    }
}

/// Extending a digit string with more digits never lowers its value.
proof fn lemma_digits_val_mono(s: Seq<char>, t: Seq<char>)
    requires
        s.is_prefix_of(t),
        forall|i: int| 0 <= i < t.len() ==> is_digit(t[i]),
    ensures
        digits_val(t) >= digits_val(s),
    decreases t.len() - s.len(),
{
    if t.len() == s.len() {
        assert(s =~= t);
    } else {
        assert(s.is_prefix_of(t.drop_last())) by {
            assert(s =~= t.drop_last().subrange(0, s.len() as int));
        }
        lemma_digits_val_mono(s, t.drop_last());
        lemma_digits_val_nonneg(s);
        lemma_digits_val_nonneg(t.drop_last());
        assert(is_digit(t.last()));
    }
}

/// Parses a string as an unsigned byte, if and only if it is a decimal
/// numeral whose value fits.
pub fn parse_u8_decimal(s: &String) -> (r: Option<u8>)
    ensures
        r is Some <==> is_u8_numeral(s@),
        r is Some ==> r->0 == u8_numeral_val(s@),
{
    let chars = chars_of(s.as_str());
    let n = chars.len();
    let start: usize = if n > 0 && chars[0] == '+' {
        1
    } else {
        0
    };
    let ghost digits = numeral_digits(s@);
    proof {
        assert(digits =~= s@.skip(start as int));
    }
    if start == n {
        // No digits at all: the empty string, or a bare plus sign.
        return None;
    }
    let mut acc: u32 = 0;
    let mut i: usize = start;
    while i < n
        invariant
            n == chars@.len(),
            chars@ == s@,
            digits == numeral_digits(s@),
            digits =~= s@.skip(start as int),
            start <= i <= n,
            start < n,
            forall|k: int| start <= k < i ==> is_digit(chars@[k]),
            acc <= 255,
            acc == digits_val(chars@.subrange(start as int, i as int)),
        decreases n - i,
    {
        let c = chars[i];
        let code = c as u32;
        if code < 48 || code > 57 {
            // Not a digit: not a numeral at all.
            proof {
                assert(digits[i - start] == chars@[i as int]);
                assert(!is_digit(digits[i - start]));
            }
            return None;
        }
        let ghost pre = chars@.subrange(start as int, i as int);
        acc = acc * 10 + (code - 48);
        i += 1;
        proof {
            let now = chars@.subrange(start as int, i as int);
            assert(now.drop_last() =~= pre);
            assert(now.last() == chars@[i - 1]);
        }
        if acc > 255 {
            // The value already exceeds a byte; more digits cannot shrink it.
            proof {
                let now = chars@.subrange(start as int, i as int);
                if forall|k: int| 0 <= k < digits.len() ==> is_digit(digits[k]) {
                    assert(now.is_prefix_of(digits)) by {
                        assert(now =~= digits.subrange(0, now.len() as int));
                    }
                    lemma_digits_val_mono(now, digits);
                }
            }
            return None;
        }
    }
    proof {
        assert(chars@.subrange(start as int, n as int) =~= digits);
        assert(digits.len() > 0);
    }
    Some(acc as u8)
}

impl MyShellCommand {
    /// Validates the argument of `exit`: a missing or non-numeric argument
    /// is reported as invalid, never defaulted.
    pub fn parse_exit(code: &Option<&String>) -> (r: MyShellCommand)
        ensures
            (match *code {
                Option::None => r is Invalid,
                Option::Some(s) => if is_u8_numeral(s@) {
                    r == MyShellCommand::Exit(u8_numeral_val(s@) as u8)
                } else {
                    r is Invalid
                },
            }),
    {
        match code {
            Some(s) => match parse_u8_decimal(s) {
                Some(v) => MyShellCommand::Exit(v),
                None => MyShellCommand::Invalid,
            },
            None => MyShellCommand::Invalid,
        }
    }

    /// Builds the `echo` command: the arguments joined with single spaces.
    pub fn parse_echo(args: &Vec<String>) -> (r: MyShellCommand)
        ensures
            r matches MyShellCommand::Echo(m) && m@ == join_spaces(args.deep_view()),
    {
        let mut out = String::new();
        let mut i: usize = 0;
        while i < args.len()
            invariant
                i <= args@.len(),
                out@ == join_spaces(args.deep_view().take(i as int)),
            decreases args@.len() - i,
        {
            if i > 0 {
                push_char(&mut out, ' ');
            }
            let ghost pre = args.deep_view().take(i as int);
            out.append(args[i].as_str());
            proof {
                crate::tokenizer::lemma_join_spaces_push(pre, args.deep_view()[i as int]);
                assert(args.deep_view().take(i + 1) =~= pre.push(args.deep_view()[i as int]));
                assert(args.deep_view()[i as int] == args@[i as int]@);
            }
            i += 1;
        }
        proof {
            assert(args.deep_view().take(args.deep_view().len() as int) =~= args.deep_view());
        }
        MyShellCommand::Echo(out)
    }

    /// Resolves a non-builtin name against the search path: the first
    /// directory listing it yields an external program carrying its full
    /// path and the whole argument list; a name no directory lists is
    /// invalid.
    pub fn parse_external_programs(
        command_name: &String,
        args: &Vec<String>,
        dirs: &Vec<SearchDir>,
    ) -> (r: MyShellCommand)
        ensures
            resolves_external(r, command_name@, args.deep_view(), dirs@),
    {
        match locate_command_in_paths(dirs, command_name, Some(args)) {
            Result::Ok(c) => c,
            Result::Err(_) => MyShellCommand::Invalid,
        }
    }

    /// Resolves the argument of `type`: builtins take precedence, then the
    /// first search-path directory listing the name, else a not-found
    /// report.
    pub fn parse_type(args: &Vec<String>, dirs: &Vec<SearchDir>) -> (r: MyShellCommand)
        requires
            args@.len() >= 1,
        ensures
            resolves_type(r, args.deep_view()[0], dirs@),
    {
        let command_name = &args[0];
        proof {
            assert(args.deep_view()[0] == args@[0]@);
        }
        if is_builtin_name(command_name) {
            MyShellCommand::Type(
                Result::Ok(PathAndType { path: None, command: command_name.clone() }),
            )
        } else {
            match locate_command_in_paths(dirs, command_name, None) {
                Result::Ok(c) => c,
                Result::Err(_) => MyShellCommand::Type(Result::Err(command_name.clone())),
            }
        }
    }

    /// Parses one input line and resolves it: builtins take precedence over
    /// any like-named executable; anything else is looked up on the search
    /// path; an empty line resolves to no command at all.
    pub fn try_parse(input: &str, dirs: &Vec<SearchDir>) -> (r: MyShellCommand)
        ensures
            command_name_of(input@) == "exit"@ ==> (if command_args_of(input@).len() == 0 {
                r is Invalid
            } else if is_u8_numeral(command_args_of(input@)[0]) {
                r == MyShellCommand::Exit(u8_numeral_val(command_args_of(input@)[0]) as u8)
            } else {
                r is Invalid
            }),
            command_name_of(input@) == "echo"@ ==> (r matches MyShellCommand::Echo(m) && m@
                == join_spaces(command_args_of(input@))),
            command_name_of(input@) == "type"@ ==> (if command_args_of(input@).len() == 0 {
                r is Invalid
            } else {
                resolves_type(r, command_args_of(input@)[0], dirs@)
            }),
            !is_builtin(command_name_of(input@)) ==> (if command_name_of(input@).len() == 0 {
                r is Invalid
            } else {
                resolves_external(r, command_name_of(input@), command_args_of(input@), dirs@)
            }),
    {
        proof {
            reveal_strlit("exit");
            reveal_strlit("echo");
            reveal_strlit("type");
            assert("exit"@[1] == 'x' && "echo"@[1] == 'c' && "type"@[1] == 'y');
            assert("exit"@ != "echo"@ && "exit"@ != "type"@ && "echo"@ != "type"@);
        }
        let parsed = parse_command_args(input);
        let name = parsed.name;
        let args = parsed.args;
        if string_eq_str(&name, "exit") {
            let code: Option<&String> = if args.len() > 0 {
                proof {
                    assert(args.deep_view()[0] == args@[0]@);
                }
                Some(&args[0])
            } else {
                None
            };
            Self::parse_exit(&code)
        } else if string_eq_str(&name, "echo") {
            Self::parse_echo(&args)
        } else if string_eq_str(&name, "type") {
            if args.len() == 0 {
                MyShellCommand::Invalid
            } else {
                proof {
                    assert(args.deep_view()[0] == args@[0]@);
                }
                Self::parse_type(&args, dirs)
            }
        } else if name.as_str().is_empty() {
            MyShellCommand::Invalid
        } else {
            Self::parse_external_programs(&name, &args, dirs)
        }
    }
}

/// How a non-builtin name must resolve against the search path.
pub open spec fn resolves_external(
    r: MyShellCommand,
    name: Seq<char>,
    args: Seq<Seq<char>>,
    dirs: Seq<SearchDir>,
) -> bool {
    if any_dir_has(dirs, name) {
        r matches MyShellCommand::ExternalProgram(e) && (e.name@ == name && (e.path@
            == joined_path(dirs[first_hit(dirs, name)].path@, name) && e.args.deep_view() == args))
    } else {
        r is Invalid
    }
}

/// How the argument of `type` must resolve: builtin, external with its
/// path, or not found.
pub open spec fn resolves_type(r: MyShellCommand, name: Seq<char>, dirs: Seq<SearchDir>) -> bool {
    if is_builtin(name) {
        r matches MyShellCommand::Type(tr) && (tr matches Ok(pt) && (pt.path is None && pt.command@
            == name))
    } else if any_dir_has(dirs, name) {
        r matches MyShellCommand::Type(tr) && (tr matches Ok(pt) && (pt.command@ == name && (
        pt.path matches Some(p) && p@ == joined_path(dirs[first_hit(dirs, name)].path@, name))))
    } else {
        r matches MyShellCommand::Type(tr) && (tr matches Err(m) && m@ == name)
    }
}

} // verus!
