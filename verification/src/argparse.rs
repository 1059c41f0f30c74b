//! The command line: `rerun [OPTIONS] -- <COMMAND>...`.
use vstd::prelude::*;

use crate::text::{chars_of, copy_strings, split, split_str, starts_with_char, str_eq, str_starts_with_char};

verus! {

/// The help text, printed for `-h` and `--help`.
pub open spec fn usage_spec() -> Seq<char> {
    "
█▀█ █▀▀ █▀█ █ █ █▄ █
█▀▄ ██▄ █▀▄ █▄█ █ ▀█

Usage: rerun [OPTIONS] -- <COMMAND>...

Watch a directory tree for file changes and automatically restart a command.

Options:
  -p, --path <PATH>       Root directory to watch (default: \".\")
  -e, --ext <EXT>         Comma-separated file extensions to filter (e.g. \"rs,toml\")
  -d, --debounce <MS>     Quiet period in milliseconds (default: 200)
  -h, --help              Print this help message

Arguments after \"--\" are treated as the command to run."@
}

/// The help text, printed for `-h` and `--help`.
pub fn usage() -> (r: &'static str)
    ensures
        r@ == usage_spec(),
{
    "
█▀█ █▀▀ █▀█ █ █ █▄ █
█▀▄ ██▄ █▀▄ █▄█ █ ▀█

Usage: rerun [OPTIONS] -- <COMMAND>...

Watch a directory tree for file changes and automatically restart a command.

Options:
  -p, --path <PATH>       Root directory to watch (default: \".\")
  -e, --ext <EXT>         Comma-separated file extensions to filter (e.g. \"rs,toml\")
  -d, --debounce <MS>     Quiet period in milliseconds (default: 200)
  -h, --help              Print this help message

Arguments after \"--\" are treated as the command to run."
}

/// The settings the command line gives.
#[derive(Debug, PartialEq)]
pub struct CliArgs {
    pub path: String,
    pub ext: Vec<String>,
    pub debounce_ms: u64,
    pub command: Vec<String>,
}

/// The settings as values.
pub struct CliModel {
    pub path: Seq<char>,
    pub ext: Seq<Seq<char>>,
    pub debounce_ms: u64,
    pub command: Seq<Seq<char>>,
}

impl View for CliArgs {
    type V = CliModel;

    open spec fn view(&self) -> CliModel {
        CliModel {
            path: self.path@,
            ext: self.ext.deep_view(),
            debounce_ms: self.debounce_ms,
            command: self.command.deep_view(),
        }
    }
}

/// Why a command line gives no settings.
#[derive(Debug, PartialEq)]
pub enum ArgError {
    /// `-h` or `--help` was given: the help text is to be shown.
    Help,
    /// The named option was the last argument, with no value after it.
    MissingValue(String),
    /// The value given to `-d` is not a number of milliseconds.
    InvalidDebounce(String),
    /// An argument begins with `-` but is no known option.
    UnknownOption(String),
    /// An argument before `--` is neither an option nor an option's value.
    UnexpectedArgument(String),
    /// No command follows `--`, or `--` is missing.
    NoCommand,
}

/// Why a command line gives no settings, as values.
pub enum ArgErrorModel {
    Help,
    MissingValue(Seq<char>),
    InvalidDebounce(Seq<char>),
    UnknownOption(Seq<char>),
    UnexpectedArgument(Seq<char>),
    NoCommand,
}

impl View for ArgError {
    type V = ArgErrorModel;

    open spec fn view(&self) -> ArgErrorModel {
        match self {
            ArgError::Help => ArgErrorModel::Help,
            ArgError::MissingValue(s) => ArgErrorModel::MissingValue(s@),
            ArgError::InvalidDebounce(s) => ArgErrorModel::InvalidDebounce(s@),
            ArgError::UnknownOption(s) => ArgErrorModel::UnknownOption(s@),
            ArgError::UnexpectedArgument(s) => ArgErrorModel::UnexpectedArgument(s@),
            ArgError::NoCommand => ArgErrorModel::NoCommand,
        }
    }
}

/// The text shown for an error.
pub open spec fn error_message(e: ArgErrorModel) -> Seq<char> {
    match e {
        ArgErrorModel::Help => usage_spec(),
        ArgErrorModel::MissingValue(a) => "missing value for "@ + a,
        ArgErrorModel::InvalidDebounce(v) => "invalid debounce value: "@ + v,
        ArgErrorModel::UnknownOption(o) => "unknown option: "@ + o,
        ArgErrorModel::UnexpectedArgument(a) => "unexpected argument: "@ + a
            + "\nCommands must be passed after \"--\""@,
        ArgErrorModel::NoCommand => "no command specified\n\nUsage: rerun [OPTIONS] -- <COMMAND>..."@,
    }
}

impl ArgError {
    /// The text shown for this error.
    pub fn message(&self) -> (r: String)
        ensures
            r@ == error_message(self@),
    {
        match self {
            ArgError::Help => String::from_str(usage()),
            ArgError::MissingValue(a) => String::from_str("missing value for ").concat(a.as_str()),
            ArgError::InvalidDebounce(v) => String::from_str("invalid debounce value: ").concat(
                v.as_str(),
            ),
            ArgError::UnknownOption(o) => String::from_str("unknown option: ").concat(o.as_str()),
            ArgError::UnexpectedArgument(a) => String::from_str("unexpected argument: ").concat(
                a.as_str(),
            ).concat("\nCommands must be passed after \"--\""),
            ArgError::NoCommand => String::from_str(
                "no command specified\n\nUsage: rerun [OPTIONS] -- <COMMAND>...",
            ),
        }
    }
}

/// A decimal digit.
pub open spec fn is_digit(c: char) -> bool {
    48 <= (c as u32) && (c as u32) <= 57
}

/// The value of the decimal numeral `d`.
pub open spec fn decimal_value(d: Seq<char>) -> int
    decreases d.len(),
{
    if d.len() == 0 {
        0
    } else {
        decimal_value(d.drop_last()) * 10 + ((d.last() as u32) - 48)
    }
}

/// The digits of an unsigned numeral: a leading `+` is allowed when
/// something follows it.
pub open spec fn unsigned_digits(s: Seq<char>) -> Seq<char> {
    if s.len() > 1 && s[0] == '+' {
        s.drop_first()
    } else {
        s
    }
}

/// The number a string denotes as `u64::from_str` reads it: an optional
/// `+`, then at least one decimal digit and nothing else, with a value that
/// fits in 64 bits.
pub open spec fn parse_u64_spec(s: Seq<char>) -> Option<u64> {
    let d = unsigned_digits(s);
    if d.len() > 0 && (forall|k: int| 0 <= k < d.len() ==> is_digit(#[trigger] d[k]))
        && decimal_value(d) <= u64::MAX {
        Some(decimal_value(d) as u64)
    } else {
        None
    }
}

proof fn lemma_decimal_prefix(d: Seq<char>, k: int)
    requires
        0 <= k <= d.len(),
        forall|j: int| 0 <= j < d.len() ==> is_digit(#[trigger] d[j]),
    ensures
        0 <= decimal_value(d.take(k)) <= decimal_value(d),
    decreases d.len(),
{
    if k == d.len() {
        assert(d.take(k) =~= d);
        lemma_decimal_nonneg(d);
    } else {
        let p = d.drop_last();
        assert forall|j: int| 0 <= j < p.len() implies is_digit(#[trigger] p[j]) by {
            assert(p[j] == d[j]);
        }
        lemma_decimal_prefix(p, k);
        assert(p.take(k) =~= d.take(k));
        assert(is_digit(d[d.len() - 1]));
    }
}

proof fn lemma_decimal_nonneg(d: Seq<char>)
    requires
        forall|j: int| 0 <= j < d.len() ==> is_digit(#[trigger] d[j]),
    ensures
        decimal_value(d) >= 0,
    decreases d.len(),
{
    if d.len() > 0 {
        let p = d.drop_last();
        assert forall|j: int| 0 <= j < p.len() implies is_digit(#[trigger] p[j]) by {
            assert(p[j] == d[j]);
        }
        lemma_decimal_nonneg(p);
        assert(is_digit(d[d.len() - 1]));
    }
}

/// The number `s` denotes, read as `u64::from_str` reads it.
pub fn parse_u64(s: &str) -> (r: Option<u64>)
    ensures
        r == parse_u64_spec(s@),
{
    let cs = chars_of(s);
    let n = cs.len();
    let start: usize = if n > 1 && cs[0] == '+' {
        1
    } else {
        0
    };
    let ghost d = unsigned_digits(s@);
    assert(d =~= s@.subrange(start as int, n as int));
    if start == n {
        return None;
    }
    let mut val: u64 = 0;
    let mut k: usize = start;
    assert(d.take(0) =~= Seq::<char>::empty());
    while k < n
        invariant
            cs@ == s@,
            n == cs.len(),
            start < n,
            start <= k <= n,
            d == s@.subrange(start as int, n as int),
            d == unsigned_digits(s@),
            forall|j: int| 0 <= j < k - start ==> is_digit(#[trigger] d[j]),
            val == decimal_value(d.take(k - start)),
        decreases n - k,
    {
        let c = cs[k];
        let u = c as u32;
        assert(d[k - start] == c);
        if !(48 <= u && u <= 57) {
            assert(!is_digit(d[k - start]));
            return None;
        }
        assert(d.take(k - start + 1).drop_last() =~= d.take(k - start));
        let digit = (u - 48) as u64;
        let next = match val.checked_mul(10) {
            Some(t) => t.checked_add(digit),
            None => None,
        };
        match next {
            Some(v) => {
                val = v;
            },
            None => {
                proof {
                    if forall|j: int| 0 <= j < d.len() ==> is_digit(#[trigger] d[j]) {
                        lemma_decimal_prefix(d, k - start + 1);
                    }
                }
                return None;
            },
        }
        k = k + 1;
    }
    assert(d.take(n - start) =~= d);
    Some(val)
}

/// A numeral of decimal digits reads as its value when that fits in 64
/// bits and is refused otherwise; a `+` before it changes nothing; an empty
/// string, and any string with a character other than a digit (beyond
/// one leading `+` before digits), is refused.
pub proof fn lemma_parse_u64_rules(s: Seq<char>)
    ensures
        s.len() == 0 ==> parse_u64_spec(s) is None,
        (exists|k: int|
            0 <= k < s.len() && !is_digit(#[trigger] s[k]) && !(k == 0 && s[0] == '+' && s.len()
                > 1)) ==> parse_u64_spec(s) is None,
        (s.len() > 0 && forall|k: int| 0 <= k < s.len() ==> is_digit(#[trigger] s[k])) ==> {
            &&& (parse_u64_spec(s) is Some <==> decimal_value(s) <= u64::MAX)
            &&& (parse_u64_spec(s) matches Some(v) ==> v == decimal_value(s))
            &&& parse_u64_spec(seq!['+'] + s) == parse_u64_spec(s)
        },
{
    if exists|k: int|
        0 <= k < s.len() && !is_digit(#[trigger] s[k]) && !(k == 0 && s[0] == '+' && s.len() > 1) {
        let k = choose|k: int|
            0 <= k < s.len() && !is_digit(#[trigger] s[k]) && !(k == 0 && s[0] == '+' && s.len()
                > 1);
        let d = unsigned_digits(s);
        if s.len() > 1 && s[0] == '+' {
            assert(d[k - 1] == s[k]);
        } else {
            assert(d[k] == s[k]);
        }
    }
    if s.len() > 0 && forall|k: int| 0 <= k < s.len() ==> is_digit(#[trigger] s[k]) {
        let t = seq!['+'] + s;
        assert(t.drop_first() =~= s);
        assert(('+' as u32) == 43);
        assert(t[0] == '+');
        assert(unsigned_digits(t) == s);
        assert(s[0] != '+') by {
            assert(is_digit(s[0]));
        }
        assert(unsigned_digits(s) == s);
        lemma_decimal_nonneg(s);
    }
}

/// The parse of `args` from index `i` on, with the settings read so far.
pub open spec fn parse_from_index(
    args: Seq<Seq<char>>,
    i: nat,
    path: Seq<char>,
    ext: Seq<Seq<char>>,
    debounce_ms: u64,
) -> Result<CliModel, ArgErrorModel>
    decreases args.len() - i,
{
    if i >= args.len() {
        Err(ArgErrorModel::NoCommand)
    } else {
        let a = args[i as int];
        if a == "-h"@ || a == "--help"@ {
            Err(ArgErrorModel::Help)
        } else if a == "-p"@ || a == "--path"@ {
            if i + 1 >= args.len() {
                Err(ArgErrorModel::MissingValue(a))
            } else {
                parse_from_index(args, i + 2, args[i + 1 as int], ext, debounce_ms)
            }
        } else if a == "-e"@ || a == "--ext"@ {
            if i + 1 >= args.len() {
                Err(ArgErrorModel::MissingValue(a))
            } else {
                parse_from_index(args, i + 2, path, split(args[i + 1 as int], ','), debounce_ms)
            }
        } else if a == "-d"@ || a == "--debounce"@ {
            if i + 1 >= args.len() {
                Err(ArgErrorModel::MissingValue(a))
            } else {
                match parse_u64_spec(args[i + 1 as int]) {
                    Some(v) => parse_from_index(args, i + 2, path, ext, v),
                    None => Err(ArgErrorModel::InvalidDebounce(args[i + 1 as int])),
                }
            }
        } else if a == "--"@ {
            if i + 1 >= args.len() {
                Err(ArgErrorModel::NoCommand)
            } else {
                Ok(
                    CliModel {
                        path,
                        ext,
                        debounce_ms,
                        command: args.subrange(i + 1 as int, args.len() as int),
                    },
                )
            }
        } else if starts_with_char(a, '-') {
            Err(ArgErrorModel::UnknownOption(a))
        } else {
            Err(ArgErrorModel::UnexpectedArgument(a))
        }
    }
}

/// What a command line gives: the arguments are read in order; `-p`,
/// `-e` and `-d` (and their long forms) take the next argument as their
/// value, a later one replacing an earlier; `--` ends the options and the
/// rest is the command, which must not be empty.
pub open spec fn parse_spec(args: Seq<Seq<char>>) -> Result<CliModel, ArgErrorModel> {
    parse_from_index(args, 0, "."@, Seq::<Seq<char>>::empty(), 200)
}

proof fn lemma_command_after_separator_from(
    args: Seq<Seq<char>>,
    i: nat,
    path: Seq<char>,
    ext: Seq<Seq<char>>,
    debounce_ms: u64,
)
    ensures
        parse_from_index(args, i, path, ext, debounce_ms) matches Ok(c) ==> exists|j: int|
            0 <= j < args.len() && args[j] == "--"@ && c.command == args.subrange(
                j + 1,
                args.len() as int,
            ) && c.command.len() > 0,
    decreases args.len() - i,
{
    if i < args.len() {
        let a = args[i as int];
        if a == "-h"@ || a == "--help"@ {
        } else if a == "-p"@ || a == "--path"@ {
            if i + 1 < args.len() {
                lemma_command_after_separator_from(args, i + 2, args[i + 1 as int], ext, debounce_ms);
            }
        } else if a == "-e"@ || a == "--ext"@ {
            if i + 1 < args.len() {
                lemma_command_after_separator_from(
                    args,
                    i + 2,
                    path,
                    split(args[i + 1 as int], ','),
                    debounce_ms,
                );
            }
        } else if a == "-d"@ || a == "--debounce"@ {
            if i + 1 < args.len() {
                if let Some(v) = parse_u64_spec(args[i + 1 as int]) {
                    lemma_command_after_separator_from(args, i + 2, path, ext, v);
                }
            }
        } else if a == "--"@ {
            if i + 1 < args.len() {
                let j = i as int;
                assert(args[j] == "--"@);
            }
        }
    }
}

/// Whatever a command line gives, its command is exactly the arguments that
/// follow a `--`, and it is never empty.
pub proof fn lemma_command_after_separator(args: Seq<Seq<char>>)
    ensures
        parse_spec(args) matches Ok(c) ==> exists|j: int|
            0 <= j < args.len() && args[j] == "--"@ && c.command == args.subrange(
                j + 1,
                args.len() as int,
            ) && c.command.len() > 0,
{
    lemma_command_after_separator_from(args, 0, "."@, Seq::<Seq<char>>::empty(), 200);
}

/// The option words of the command line are distinct, and all begin with `-`.
proof fn lemma_option_words()
    ensures
        "-h"@ != "--help"@,
        "-h"@ != "-p"@,
        "-h"@ != "--path"@,
        "-h"@ != "-e"@,
        "-h"@ != "--ext"@,
        "-h"@ != "-d"@,
        "-h"@ != "--debounce"@,
        "-h"@ != "--"@,
        "--help"@ != "-p"@,
        "--help"@ != "--path"@,
        "--help"@ != "-e"@,
        "--help"@ != "--ext"@,
        "--help"@ != "-d"@,
        "--help"@ != "--debounce"@,
        "--help"@ != "--"@,
        "-p"@ != "--path"@,
        "-p"@ != "-e"@,
        "-p"@ != "--ext"@,
        "-p"@ != "-d"@,
        "-p"@ != "--debounce"@,
        "-p"@ != "--"@,
        "--path"@ != "-e"@,
        "--path"@ != "--ext"@,
        "--path"@ != "-d"@,
        "--path"@ != "--debounce"@,
        "--path"@ != "--"@,
        "-e"@ != "--ext"@,
        "-e"@ != "-d"@,
        "-e"@ != "--debounce"@,
        "-e"@ != "--"@,
        "--ext"@ != "-d"@,
        "--ext"@ != "--debounce"@,
        "--ext"@ != "--"@,
        "-d"@ != "--debounce"@,
        "-d"@ != "--"@,
        "--debounce"@ != "--"@,
        starts_with_char("-h"@, '-'),
        starts_with_char("--help"@, '-'),
        starts_with_char("-p"@, '-'),
        starts_with_char("--path"@, '-'),
        starts_with_char("-e"@, '-'),
        starts_with_char("--ext"@, '-'),
        starts_with_char("-d"@, '-'),
        starts_with_char("--debounce"@, '-'),
        starts_with_char("--"@, '-'),
{
    reveal_strlit("-h");
    reveal_strlit("--help");
    reveal_strlit("-p");
    reveal_strlit("--path");
    reveal_strlit("-e");
    reveal_strlit("--ext");
    reveal_strlit("-d");
    reveal_strlit("--debounce");
    reveal_strlit("--");
    assert("-h"@.len() != "--help"@.len());
    assert("-h"@[1] != "-p"@[1]);
    assert("-h"@.len() != "--path"@.len());
    assert("-h"@[1] != "-e"@[1]);
    assert("-h"@.len() != "--ext"@.len());
    assert("-h"@[1] != "-d"@[1]);
    assert("-h"@.len() != "--debounce"@.len());
    assert("-h"@[1] != "--"@[1]);
    assert("--help"@.len() != "-p"@.len());
    assert("--help"@[2] != "--path"@[2]);
    assert("--help"@.len() != "-e"@.len());
    assert("--help"@.len() != "--ext"@.len());
    assert("--help"@.len() != "-d"@.len());
    assert("--help"@.len() != "--debounce"@.len());
    assert("--help"@.len() != "--"@.len());
    assert("-p"@.len() != "--path"@.len());
    assert("-p"@[1] != "-e"@[1]);
    assert("-p"@.len() != "--ext"@.len());
    assert("-p"@[1] != "-d"@[1]);
    assert("-p"@.len() != "--debounce"@.len());
    assert("-p"@[1] != "--"@[1]);
    assert("--path"@.len() != "-e"@.len());
    assert("--path"@.len() != "--ext"@.len());
    assert("--path"@.len() != "-d"@.len());
    assert("--path"@.len() != "--debounce"@.len());
    assert("--path"@.len() != "--"@.len());
    assert("-e"@.len() != "--ext"@.len());
    assert("-e"@[1] != "-d"@[1]);
    assert("-e"@.len() != "--debounce"@.len());
    assert("-e"@[1] != "--"@[1]);
    assert("--ext"@.len() != "-d"@.len());
    assert("--ext"@.len() != "--debounce"@.len());
    assert("--ext"@.len() != "--"@.len());
    assert("-d"@.len() != "--debounce"@.len());
    assert("-d"@[1] != "--"@[1]);
    assert("--debounce"@.len() != "--"@.len());
    assert("-h"@[0] == '-');
    assert("--help"@[0] == '-');
    assert("-p"@[0] == '-');
    assert("--path"@[0] == '-');
    assert("-e"@[0] == '-');
    assert("--ext"@[0] == '-');
    assert("-d"@[0] == '-');
    assert("--debounce"@[0] == '-');
    assert("--"@[0] == '-');
}

/// Whether an argument is an option that takes the next argument as its
/// value.
pub open spec fn takes_value(a: Seq<char>) -> bool {
    a == "-p"@ || a == "--path"@ || a == "-e"@ || a == "--ext"@ || a == "-d"@ || a == "--debounce"@
}

/// Whether an argument is one of the words the command line knows.
pub open spec fn is_known_word(a: Seq<char>) -> bool {
    takes_value(a) || a == "-h"@ || a == "--help"@ || a == "--"@
}

/// Options, each with its value, where every `-d` value is a number.
pub open spec fn valid_options(pairs: Seq<(Seq<char>, Seq<char>)>) -> bool {
    forall|k: int|
        0 <= k < pairs.len() ==> takes_value(#[trigger] pairs[k].0) && ((pairs[k].0 == "-d"@
            || pairs[k].0 == "--debounce"@) ==> parse_u64_spec(pairs[k].1) is Some)
}

/// Options written out as arguments: each option followed by its value.
pub open spec fn option_args(pairs: Seq<(Seq<char>, Seq<char>)>) -> Seq<Seq<char>>
    decreases pairs.len(),
{
    if pairs.len() == 0 {
        Seq::<Seq<char>>::empty()
    } else {
        option_args(pairs.drop_last()) + seq![pairs.last().0, pairs.last().1]
    }
}

/// The value of the last of the options named `short` or `long`.
pub open spec fn last_value(pairs: Seq<(Seq<char>, Seq<char>)>, short: Seq<char>, long: Seq<char>) -> Option<
    Seq<char>,
>
    decreases pairs.len(),
{
    if pairs.len() == 0 {
        None
    } else if pairs.last().0 == short || pairs.last().0 == long {
        Some(pairs.last().1)
    } else {
        last_value(pairs.drop_last(), short, long)
    }
}

/// The path the options give: the last `-p` value, else `.`.
pub open spec fn path_given(pairs: Seq<(Seq<char>, Seq<char>)>) -> Seq<char> {
    match last_value(pairs, "-p"@, "--path"@) {
        Some(p) => p,
        None => "."@,
    }
}

/// The extensions the options give: the pieces of the last `-e` value,
/// else none.
pub open spec fn ext_given(pairs: Seq<(Seq<char>, Seq<char>)>) -> Seq<Seq<char>> {
    match last_value(pairs, "-e"@, "--ext"@) {
        Some(v) => split(v, ','),
        None => Seq::<Seq<char>>::empty(),
    }
}

/// The quiet period the options give: the number of the last `-d` value,
/// else 200.
pub open spec fn debounce_given(pairs: Seq<(Seq<char>, Seq<char>)>) -> u64 {
    match last_value(pairs, "-d"@, "--debounce"@) {
        Some(v) => parse_u64_spec(v).unwrap(),
        None => 200,
    }
}

proof fn lemma_option_args_index(pairs: Seq<(Seq<char>, Seq<char>)>)
    ensures
        option_args(pairs).len() == 2 * pairs.len(),
        forall|k: int|
            #![trigger pairs[k]]
            0 <= k < pairs.len() ==> option_args(pairs)[2 * k] == pairs[k].0 && option_args(
                pairs,
            )[2 * k + 1] == pairs[k].1,
    decreases pairs.len(),
{
    if pairs.len() > 0 {
        let p = pairs.drop_last();
        lemma_option_args_index(p);
        assert forall|k: int|
            #![trigger pairs[k]]
            0 <= k < pairs.len() implies option_args(pairs)[2 * k] == pairs[k].0 && option_args(
            pairs,
        )[2 * k + 1] == pairs[k].1 by {
            if k < p.len() {
                assert(p[k] == pairs[k]);
            }
        }
    }
}

proof fn lemma_options_read(pairs: Seq<(Seq<char>, Seq<char>)>, rest: Seq<Seq<char>>, k: nat)
    requires
        valid_options(pairs),
        k <= pairs.len(),
    ensures
        parse_spec(option_args(pairs) + rest) == parse_from_index(
            option_args(pairs) + rest,
            2 * k,
            path_given(pairs.take(k as int)),
            ext_given(pairs.take(k as int)),
            debounce_given(pairs.take(k as int)),
        ),
    decreases k,
{
    let args = option_args(pairs) + rest;
    if k == 0 {
        assert(pairs.take(0) =~= Seq::<(Seq<char>, Seq<char>)>::empty());
    } else {
        let j = (k - 1) as nat;
        lemma_options_read(pairs, rest, j);
        lemma_option_args_index(pairs);
        lemma_option_words();
        let a = pairs[j as int].0;
        let v = pairs[j as int].1;
        assert(takes_value(a));
        assert(args[2 * j as int] == a);
        assert(args[2 * j + 1 as int] == v);
        let pre = pairs.take(j as int);
        let cur = pairs.take(k as int);
        assert(cur.drop_last() =~= pre);
        assert(cur.last() == pairs[j as int]);
        assert(2 * j + 1 < args.len());
        assert(2 * j + 2 == 2 * k);
    }
}

proof fn lemma_options_read_all(pairs: Seq<(Seq<char>, Seq<char>)>, rest: Seq<Seq<char>>)
    requires
        valid_options(pairs),
    ensures
        parse_spec(option_args(pairs) + rest) == parse_from_index(
            option_args(pairs) + rest,
            2 * pairs.len(),
            path_given(pairs),
            ext_given(pairs),
            debounce_given(pairs),
        ),
        (option_args(pairs) + rest).len() == 2 * pairs.len() + rest.len(),
        forall|j: int|
            0 <= j < rest.len() ==> (option_args(pairs) + rest)[2 * pairs.len() + j] == rest[j],
{
    lemma_options_read(pairs, rest, pairs.len());
    assert(pairs.take(pairs.len() as int) =~= pairs);
    lemma_option_args_index(pairs);
}

/// Options followed by `--` and a command give the path, extensions and
/// quiet period of the last `-p`, `-e` and `-d` among them (or the
/// defaults), whatever their order, and the command is what follows `--`.
pub proof fn lemma_options_then_command(pairs: Seq<(Seq<char>, Seq<char>)>, command: Seq<Seq<char>>)
    requires
        valid_options(pairs),
        command.len() > 0,
    ensures
        parse_spec(option_args(pairs) + seq!["--"@] + command) == Ok::<CliModel, ArgErrorModel>(
            CliModel {
                path: path_given(pairs),
                ext: ext_given(pairs),
                debounce_ms: debounce_given(pairs),
                command,
            },
        ),
{
    let rest = seq!["--"@] + command;
    assert(option_args(pairs) + seq!["--"@] + command =~= option_args(pairs) + rest);
    lemma_options_read_all(pairs, rest);
    lemma_option_words();
    let args = option_args(pairs) + rest;
    let n = (2 * pairs.len()) as int;
    assert(args[n] == "--"@) by {
        assert(rest[0] == "--"@);
    }
    assert(args.subrange(n + 1, args.len() as int) =~= command) by {
        assert forall|j: int| 0 <= j < command.len() implies args.subrange(
            n + 1,
            args.len() as int,
        )[j] == command[j] by {
            assert(rest[j + 1] == command[j]);
        }
    }
}

/// Options and nothing more, or options and a `--` with nothing after it,
/// give no command.
pub proof fn lemma_options_without_command(pairs: Seq<(Seq<char>, Seq<char>)>)
    requires
        valid_options(pairs),
    ensures
        parse_spec(option_args(pairs)) == Err::<CliModel, ArgErrorModel>(ArgErrorModel::NoCommand),
        parse_spec(option_args(pairs) + seq!["--"@]) == Err::<CliModel, ArgErrorModel>(
            ArgErrorModel::NoCommand,
        ),
{
    lemma_options_read_all(pairs, Seq::<Seq<char>>::empty());
    assert(option_args(pairs) + Seq::<Seq<char>>::empty() =~= option_args(pairs));
    lemma_options_read_all(pairs, seq!["--"@]);
    lemma_option_words();
    assert((option_args(pairs) + seq!["--"@])[2 * pairs.len() as int] == "--"@);
}

/// After options, `-h` or `--help` asks for the help text, whatever
/// follows.
pub proof fn lemma_options_then_help(
    pairs: Seq<(Seq<char>, Seq<char>)>,
    a: Seq<char>,
    rest: Seq<Seq<char>>,
)
    requires
        valid_options(pairs),
        a == "-h"@ || a == "--help"@,
    ensures
        parse_spec(option_args(pairs) + seq![a] + rest) == Err::<CliModel, ArgErrorModel>(
            ArgErrorModel::Help,
        ),
{
    let tail = seq![a] + rest;
    assert(option_args(pairs) + seq![a] + rest =~= option_args(pairs) + tail);
    lemma_options_read_all(pairs, tail);
    assert(tail[0] == a);
}

/// An option that takes a value, given last, is missing its value.
pub proof fn lemma_options_then_missing_value(pairs: Seq<(Seq<char>, Seq<char>)>, a: Seq<char>)
    requires
        valid_options(pairs),
        takes_value(a),
    ensures
        parse_spec(option_args(pairs) + seq![a]) == Err::<CliModel, ArgErrorModel>(
            ArgErrorModel::MissingValue(a),
        ),
{
    lemma_options_read_all(pairs, seq![a]);
    lemma_option_words();
    assert(seq![a][0] == a);
}

/// A `-d` whose value is not a number is refused with that value.
pub proof fn lemma_options_then_bad_debounce(
    pairs: Seq<(Seq<char>, Seq<char>)>,
    a: Seq<char>,
    v: Seq<char>,
    rest: Seq<Seq<char>>,
)
    requires
        valid_options(pairs),
        a == "-d"@ || a == "--debounce"@,
        parse_u64_spec(v) is None,
    ensures
        parse_spec(option_args(pairs) + seq![a, v] + rest) == Err::<CliModel, ArgErrorModel>(
            ArgErrorModel::InvalidDebounce(v),
        ),
{
    let tail = seq![a, v] + rest;
    assert(option_args(pairs) + seq![a, v] + rest =~= option_args(pairs) + tail);
    lemma_options_read_all(pairs, tail);
    lemma_option_words();
    assert(tail[0] == a);
    assert(tail[1] == v);
}

/// An argument beginning with `-` that is no known word is refused as an
/// unknown option, whatever follows.
pub proof fn lemma_options_then_unknown(
    pairs: Seq<(Seq<char>, Seq<char>)>,
    a: Seq<char>,
    rest: Seq<Seq<char>>,
)
    requires
        valid_options(pairs),
        starts_with_char(a, '-'),
        !is_known_word(a),
    ensures
        parse_spec(option_args(pairs) + seq![a] + rest) == Err::<CliModel, ArgErrorModel>(
            ArgErrorModel::UnknownOption(a),
        ),
{
    let tail = seq![a] + rest;
    assert(option_args(pairs) + seq![a] + rest =~= option_args(pairs) + tail);
    lemma_options_read_all(pairs, tail);
    assert(tail[0] == a);
}

/// An argument that does not begin with `-` where an option is expected is
/// refused as unexpected, whatever follows.
pub proof fn lemma_options_then_bare(
    pairs: Seq<(Seq<char>, Seq<char>)>,
    a: Seq<char>,
    rest: Seq<Seq<char>>,
)
    requires
        valid_options(pairs),
        !starts_with_char(a, '-'),
    ensures
        parse_spec(option_args(pairs) + seq![a] + rest) == Err::<CliModel, ArgErrorModel>(
            ArgErrorModel::UnexpectedArgument(a),
        ),
{
    let tail = seq![a] + rest;
    assert(option_args(pairs) + seq![a] + rest =~= option_args(pairs) + tail);
    lemma_options_read_all(pairs, tail);
    lemma_option_words();
    assert(tail[0] == a);
}

/// A command line of `--` and a command gives the defaults: the current
/// directory, no extension filter and a quiet period of 200 ms.
pub proof fn lemma_defaults(command: Seq<Seq<char>>)
    requires
        command.len() > 0,
    ensures
        parse_spec(seq!["--"@] + command) == Ok::<CliModel, ArgErrorModel>(
            CliModel {
                path: "."@,
                ext: Seq::<Seq<char>>::empty(),
                debounce_ms: 200,
                command,
            },
        ),
{
    let args = seq!["--"@] + command;
    lemma_option_words();
    assert(args[0] == "--"@);
    assert(args.subrange(1, args.len() as int) =~= command);
}

/// `-e` sets the extension filter to the pieces of its value between
/// commas.
pub proof fn lemma_ext_value(value: Seq<char>, command: Seq<Seq<char>>)
    requires
        command.len() > 0,
    ensures
        parse_spec(seq!["-e"@, value, "--"@] + command) == Ok::<CliModel, ArgErrorModel>(
            CliModel { path: "."@, ext: split(value, ','), debounce_ms: 200, command },
        ),
{
    let args = seq!["-e"@, value, "--"@] + command;
    lemma_option_words();
    assert(args[0] == "-e"@);
    assert(args[1] == value);
    assert(args[2] == "--"@);
    assert(args.subrange(3, args.len() as int) =~= command);
    assert(parse_spec(args) == parse_from_index(args, 2, "."@, split(value, ','), 200));
}

impl CliArgs {
    /// Reads the settings from the arguments (the program name left out).
    pub fn parse_from(args: Vec<String>) -> (r: Result<CliArgs, ArgError>)
        ensures
            match r {
                Ok(c) => parse_spec(args.deep_view()) == Ok::<CliModel, ArgErrorModel>(c@),
                Err(e) => parse_spec(args.deep_view()) == Err::<CliModel, ArgErrorModel>(e@),
            },
    {
        let ghost av = args.deep_view();
        let n = args.len();
        let mut path = String::from_str(".");
        let mut ext: Vec<String> = Vec::new();
        let mut debounce_ms: u64 = 200;
        let mut i: usize = 0;
        assert(ext.deep_view() =~= Seq::<Seq<char>>::empty());
        while i < n
            invariant
                av == args.deep_view(),
                n == args.len(),
                parse_spec(av) == parse_from_index(av, i as nat, path@, ext.deep_view(), debounce_ms),
            decreases n - i,
        {
            let a = &args[i];
            assert(av[i as int] == a@);
            if str_eq(a.as_str(), "-h") || str_eq(a.as_str(), "--help") {
                return Err(ArgError::Help);
            } else if str_eq(a.as_str(), "-p") || str_eq(a.as_str(), "--path") {
                if i + 1 >= n {
                    return Err(ArgError::MissingValue(a.clone()));
                }
                assert(av[i + 1] == args[i + 1]@);
                path = args[i + 1].clone();
                i = i + 2;
            } else if str_eq(a.as_str(), "-e") || str_eq(a.as_str(), "--ext") {
                if i + 1 >= n {
                    return Err(ArgError::MissingValue(a.clone()));
                }
                assert(av[i + 1] == args[i + 1]@);
                ext = split_str(args[i + 1].as_str(), ',');
                i = i + 2;
            } else if str_eq(a.as_str(), "-d") || str_eq(a.as_str(), "--debounce") {
                if i + 1 >= n {
                    return Err(ArgError::MissingValue(a.clone()));
                }
                assert(av[i + 1] == args[i + 1]@);
                match parse_u64(args[i + 1].as_str()) {
                    Some(v) => {
                        debounce_ms = v;
                    },
                    None => {
                        return Err(ArgError::InvalidDebounce(args[i + 1].clone()));
                    },
                }
                i = i + 2;
            } else if str_eq(a.as_str(), "--") {
                if i + 1 >= n {
                    return Err(ArgError::NoCommand);
                }
                let command = copy_strings(args.as_slice(), i + 1);
                return Ok(CliArgs { path, ext, debounce_ms, command });
            } else if str_starts_with_char(a.as_str(), '-') {
                return Err(ArgError::UnknownOption(a.clone()));
            } else {
                return Err(ArgError::UnexpectedArgument(a.clone()));
            }
        }
        Err(ArgError::NoCommand)
    }
}

} // verus!
