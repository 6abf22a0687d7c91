//! The command line.
use crate::text::{characters, decimal, decimal_value, law_decimal_reads_back, same};
use vstd::prelude::*;
use vstd::string::*;

verus! {

/// The number of samplers where none is given.
pub const DEFAULT_WORKERS: usize = 2;

/// The number 50 as a binary64 bit pattern: the share of a processor, in percent, that a
/// sampler takes where none is given.
pub const DEFAULT_CPU_PERCENT_BITS: u64 = 0x4049_0000_0000_0000;

/// An argument.
pub struct Argument {
    pub text: String,
    /// The bit pattern of the binary64 number that the text reads as, if it reads as one.
    pub number: Option<u64>,
}

/// What the arguments ask for.
pub struct Args {
    pub path: String,
    pub workers: Option<usize>,
    /// The bit pattern of a binary64 number.
    pub cpu_percent: u64,
}

/// What to do.
pub enum Command {
    Help,
    Run(Args),
}

/// What is wrong with the arguments.
pub enum ArgsError {
    WorkersMissing,
    /// With the text that is no number.
    WorkersNotNumber(String),
    CpuMissing,
    /// With the text that is no number.
    CpuNotNumber(String),
    Unexpected(String),
    PathMissing,
}

/// An argument as text.
pub struct ArgumentView {
    pub text: Seq<char>,
    pub number: Option<u64>,
}

pub open spec fn argument_views(args: Seq<Argument>) -> Seq<ArgumentView> {
    args.map_values(|arg: Argument| ArgumentView { text: arg.text@, number: arg.number })
}

/// The arguments read so far.
pub struct Seen {
    pub path: Option<Seq<char>>,
    pub workers: Option<usize>,
    pub cpu_percent: u64,
}

/// What reading the arguments comes to.
pub enum Outcome {
    Help,
    Run { path: Seq<char>, workers: Option<usize>, cpu_percent: u64 },
    WorkersMissing,
    WorkersNotNumber { text: Seq<char> },
    CpuMissing,
    CpuNotNumber { text: Seq<char> },
    Unexpected { text: Seq<char> },
    PathMissing,
}

pub open spec fn is_digit(c: char) -> bool {
    '0' <= c <= '9'
}

/// The number that digits write.
pub open spec fn digits_number(digits: Seq<char>) -> nat
    decreases digits.len(),
{
    if digits.len() == 0 {
        0
    } else {
        (10 * digits_number(digits.drop_last()) + (digits.last() as nat - '0' as nat)) as nat
    }
}

pub open spec fn all_digits(s: Seq<char>) -> bool {
    forall|i: int| 0 <= i < s.len() ==> is_digit(#[trigger] s[i])
}

/// The digits of a number, which a plus sign may precede.
pub open spec fn unsigned(s: Seq<char>) -> Seq<char> {
    if s.len() > 1 && s[0] == '+' {
        s.drop_first()
    } else {
        s
    }
}

/// The count that a text reads as: digits, and few enough of them.
pub open spec fn count_value(s: Seq<char>) -> Option<usize> {
    let digits = unsigned(s);
    if digits.len() > 0 && all_digits(digits) && digits_number(digits) <= usize::MAX {
        Some(digits_number(digits) as usize)
    } else {
        None
    }
}

pub open spec fn is_workers_flag(text: Seq<char>) -> bool {
    text == "-w"@ || text == "--workers"@
}

pub open spec fn is_cpu_flag(text: Seq<char>) -> bool {
    text == "-c"@ || text == "--cpu"@
}

pub open spec fn is_help_flag(text: Seq<char>) -> bool {
    text == "-h"@ || text == "--help"@
}

/// What the arguments come to, given those before them. Flags may come in any order and
/// the last of several counts. Reading stops at the first error and at a call for help.
/// The first argument that is no flag is the path.
pub open spec fn outcome(args: Seq<ArgumentView>, seen: Seen) -> Outcome
    decreases args.len(),
{
    if args.len() == 0 {
        match seen.path {
            Some(path) => Outcome::Run {
                path,
                workers: seen.workers,
                cpu_percent: seen.cpu_percent,
            },
            None => Outcome::PathMissing,
        }
    } else if is_workers_flag(args[0].text) {
        if args.len() == 1 {
            Outcome::WorkersMissing
        } else {
            match count_value(args[1].text) {
                Some(count) => outcome(args.skip(2), Seen { workers: Some(count), ..seen }),
                None => Outcome::WorkersNotNumber { text: args[1].text },
            }
        }
    } else if is_cpu_flag(args[0].text) {
        if args.len() == 1 {
            Outcome::CpuMissing
        } else {
            match args[1].number {
                Some(cpu_percent) => outcome(args.skip(2), Seen { cpu_percent, ..seen }),
                None => Outcome::CpuNotNumber { text: args[1].text },
            }
        }
    } else if is_help_flag(args[0].text) {
        Outcome::Help
    } else if seen.path is None {
        outcome(args.skip(1), Seen { path: Some(args[0].text), ..seen })
    } else {
        Outcome::Unexpected { text: args[0].text }
    }
}

pub open spec fn is_flag(text: Seq<char>) -> bool {
    is_workers_flag(text) || is_cpu_flag(text) || is_help_flag(text)
}

/// The path may stand before a flag and its value or behind them.
pub proof fn law_path_anywhere(
    flag: ArgumentView,
    value: ArgumentView,
    path: ArgumentView,
    rest: Seq<ArgumentView>,
    seen: Seen,
)
    requires
        is_workers_flag(flag.text) || is_cpu_flag(flag.text),
        !is_flag(path.text),
        seen.path is None,
    ensures
        outcome(seq![flag, value, path] + rest, seen) == outcome(
            seq![path, flag, value] + rest,
            seen,
        ),
{
    let a = seq![flag, value, path] + rest;
    let b = seq![path, flag, value] + rest;
    reveal_with_fuel(outcome, 3);
    assert(a.skip(2) =~= seq![path] + rest);
    assert(a.skip(2).skip(1) =~= rest);
    assert(b.skip(1) =~= seq![flag, value] + rest);
    assert(b.skip(1).skip(2) =~= rest);
}

/// No flag asks for two things.
proof fn lemma_flags_apart(text: Seq<char>)
    ensures
        is_cpu_flag(text) ==> !is_workers_flag(text),
{
    reveal_strlit("-w");
    reveal_strlit("--workers");
    reveal_strlit("-c");
    reveal_strlit("--cpu");
    if is_cpu_flag(text) {
        assert(text.len() == 2 || text.len() == 5);
        assert(text[1] == 'c' || text[1] == '-');
        assert("-w"@.len() == 2 && "-w"@[1] == 'w');
        assert("--workers"@.len() == 9);
    }
}

/// Of a flag that is given twice in a row, the first value does not count if it can be read.
pub proof fn law_last_value_counts(
    flag: ArgumentView,
    first: ArgumentView,
    again: ArgumentView,
    last: ArgumentView,
    rest: Seq<ArgumentView>,
    seen: Seen,
)
    requires
        (is_workers_flag(flag.text) && is_workers_flag(again.text) && count_value(first.text) is Some)
            || (is_cpu_flag(flag.text) && is_cpu_flag(again.text) && first.number is Some),
    ensures
        outcome(seq![flag, first, again, last] + rest, seen) == outcome(
            seq![again, last] + rest,
            seen,
        ),
{
    let a = seq![flag, first, again, last] + rest;
    let b = seq![again, last] + rest;
    reveal_with_fuel(outcome, 3);
    lemma_flags_apart(flag.text);
    lemma_flags_apart(again.text);
    assert(a.skip(2) =~= b);
    assert(b.skip(2) =~= rest);
}

/// A count is read back from its decimal notation, with a plus sign before it or without, and
/// a text with anything else than digits behind the sign is no count.
pub proof fn law_count_reads_back(n: nat, s: Seq<char>, i: int)
    ensures
        n <= usize::MAX ==> count_value(decimal(n)) == Some(n as usize) && count_value(
            seq!['+'] + decimal(n),
        ) == Some(n as usize),
        n > usize::MAX ==> count_value(decimal(n)) is None,
        0 < i < s.len() && !('0' <= s[i] <= '9') ==> count_value(s) is None,
        s.len() > 0 && !('0' <= s[0] <= '9') && s[0] != '+' ==> count_value(s) is None,
        s.len() == 0 || s == seq!['+'] ==> count_value(s) is None,
{
    let d = decimal(n);
    law_decimal_reads_back(n);
    lemma_same_number(d);
    assert(d[0] != '+');
    assert(unsigned(d) == d);
    assert(unsigned(seq!['+'] + d) =~= d);
    assert(all_digits(d)) by {
        assert forall|j: int| 0 <= j < d.len() implies is_digit(#[trigger] d[j]) by {}
    }
    if 0 < i < s.len() && !('0' <= s[i] <= '9') {
        let digits = unsigned(s);
        if s[0] == '+' {
            assert(digits[i - 1] == s[i]);
        }
        assert(!all_digits(digits)) by {
            if all_digits(digits) {
                if s[0] == '+' {
                    assert(is_digit(digits[i - 1]));
                } else {
                    assert(is_digit(digits[i]));
                }
            }
        }
    }
    if s.len() > 0 && !('0' <= s[0] <= '9') && s[0] != '+' {
        assert(!is_digit(unsigned(s)[0]));
    }
    if s == seq!['+'] {
        assert(!is_digit(unsigned(s)[0]));
    }
}

/// The two ways of reading digits agree.
proof fn lemma_same_number(digits: Seq<char>)
    requires
        forall|i: int| 0 <= i < digits.len() ==> '0' <= #[trigger] digits[i] <= '9',
    ensures
        digits_number(digits) == decimal_value(digits),
    decreases digits.len(),
{
    if digits.len() > 0 {
        let rest = digits.drop_last();
        assert forall|i: int| 0 <= i < rest.len() implies '0' <= #[trigger] rest[i] <= '9' by {
            assert(rest[i] == digits[i]);
        }
        lemma_same_number(rest);
        assert('0' <= digits[digits.len() - 1] <= '9');
    }
}

/// What each argument does to what is read: a flag for the workers takes a count and sets it, a
/// flag for the processor a number, help ends the reading, and what is no flag is the path, of
/// which there is one. A missing or unreadable value, a second path and a missing one are
/// errors of their own.
pub proof fn law_each_argument(args: Seq<ArgumentView>, seen: Seen)
    ensures
        args.len() == 0 && seen.path is None ==> outcome(args, seen) is PathMissing,
        args.len() == 0 && seen.path is Some ==> outcome(args, seen) == (Outcome::Run {
            path: seen.path->0,
            workers: seen.workers,
            cpu_percent: seen.cpu_percent,
        }),
        args.len() == 1 && is_workers_flag(args[0].text) ==> outcome(args, seen) is WorkersMissing,
        args.len() == 1 && is_cpu_flag(args[0].text) ==> outcome(args, seen) is CpuMissing,
        args.len() > 1 && is_workers_flag(args[0].text) && count_value(args[1].text) is None
            ==> outcome(args, seen) == (Outcome::WorkersNotNumber { text: args[1].text }),
        args.len() > 1 && is_cpu_flag(args[0].text) && args[1].number is None ==> outcome(
            args,
            seen,
        ) == (Outcome::CpuNotNumber { text: args[1].text }),
        args.len() > 1 && is_workers_flag(args[0].text) && count_value(args[1].text) is Some
            ==> outcome(args, seen) == outcome(
            args.skip(2),
            Seen { workers: count_value(args[1].text), ..seen },
        ),
        args.len() > 1 && is_cpu_flag(args[0].text) && args[1].number is Some ==> outcome(
            args,
            seen,
        ) == outcome(args.skip(2), Seen { cpu_percent: args[1].number->0, ..seen }),
        args.len() > 0 && (args[0].text == "-h"@ || args[0].text == "--help"@) ==> outcome(
            args,
            seen,
        ) is Help,
        args.len() > 0 && !is_flag(args[0].text) && seen.path is Some ==> outcome(args, seen) == (
        Outcome::Unexpected { text: args[0].text }),
        args.len() > 0 && !is_flag(args[0].text) && seen.path is None ==> outcome(args, seen)
            == outcome(args.skip(1), Seen { path: Some(args[0].text), ..seen }),
        is_workers_flag("-w"@) && is_workers_flag("--workers"@),
        is_cpu_flag("-c"@) && is_cpu_flag("--cpu"@),
{
    if args.len() > 0 {
        lemma_flags_apart(args[0].text);
        lemma_help_apart(args[0].text);
    }
}

proof fn lemma_help_apart(text: Seq<char>)
    ensures
        is_help_flag(text) ==> !is_workers_flag(text) && !is_cpu_flag(text),
{
    reveal_strlit("-w");
    reveal_strlit("--workers");
    reveal_strlit("-c");
    reveal_strlit("--cpu");
    reveal_strlit("-h");
    reveal_strlit("--help");
    if is_help_flag(text) {
        assert(text.len() == 2 || text.len() == 6);
        assert(text[1] == 'h' || text[1] == '-');
        assert("-w"@.len() == 2 && "-w"@[1] == 'w');
        assert("-c"@.len() == 2 && "-c"@[1] == 'c');
        assert("--workers"@.len() == 9);
        assert("--cpu"@.len() == 5);
    }
}

/// The result says what the arguments come to.
pub open spec fn tells(r: Result<Command, ArgsError>, o: Outcome) -> bool {
    match r {
        Ok(Command::Help) => o is Help,
        Ok(Command::Run(args)) => o == (Outcome::Run {
            path: args.path@,
            workers: args.workers,
            cpu_percent: args.cpu_percent,
        }),
        Err(ArgsError::WorkersMissing) => o is WorkersMissing,
        Err(ArgsError::WorkersNotNumber(text)) => o == (Outcome::WorkersNotNumber { text: text@ }),
        Err(ArgsError::CpuMissing) => o is CpuMissing,
        Err(ArgsError::CpuNotNumber(text)) => o == (Outcome::CpuNotNumber { text: text@ }),
        Err(ArgsError::Unexpected(text)) => o == (Outcome::Unexpected { text: text@ }),
        Err(ArgsError::PathMissing) => o is PathMissing,
    }
}

/// Reads a count.
pub fn parse_count(s: &str) -> (r: Option<usize>)
    ensures
        r == count_value(s@),
{
    let chars: Vec<char> = characters(s);
    let start: usize = if chars.len() > 1 && chars[0] == '+' {
        1
    } else {
        0
    };
    let ghost digits = unsigned(s@);
    proof {
        assert(digits =~= s@.skip(start as int));
        assert(digits.take(0) =~= Seq::empty());
        assert(digits.take(digits.len() as int) =~= digits);
    }
    if chars.len() == 0 {
        return None;
    }
    let mut value: usize = 0;
    let mut over: bool = false;
    let mut i: usize = start;
    while i < chars.len()
        invariant
            chars@ == s@,
            start <= i <= chars@.len(),
            digits == unsigned(s@),
            digits == s@.skip(start as int),
            digits.take(digits.len() as int) == digits,
            forall|j: int| 0 <= j < i - start ==> is_digit(#[trigger] digits[j]),
            over ==> digits_number(digits.take(i - start)) > usize::MAX,
            !over ==> value == digits_number(digits.take(i - start)),
        decreases chars@.len() - i,
    {
        let c: char = chars[i];
        proof {
            assert(digits[i - start] == c);
        }
        if c < '0' || c > '9' {
            proof {
                assert(!all_digits(digits));
            }
            return None;
        }
        let d: usize = (c as u32 - 48) as usize;
        proof {
            assert(digits.take(i - start + 1).drop_last() =~= digits.take(i - start));
            assert(digits.take(i - start + 1).last() == c);
        }
        if !over {
            match value.checked_mul(10) {
                Some(tens) => match tens.checked_add(d) {
                    Some(sum) => {
                        value = sum;
                    },
                    None => {
                        over = true;
                    },
                },
                None => {
                    over = true;
                },
            }
        }
        i = i + 1;
    }
    proof {
        assert(all_digits(digits));
    }
    if over {
        None
    } else {
        Some(value)
    }
}

/// Reads the arguments, without the name of the program.
pub fn parse_args(args: &Vec<Argument>) -> (r: Result<Command, ArgsError>)
    ensures
        tells(
            r,
            outcome(
                argument_views(args@),
                Seen { path: None, workers: None, cpu_percent: DEFAULT_CPU_PERCENT_BITS },
            ),
        ),
{
    let ghost all = argument_views(args@);
    let mut path: Option<String> = None;
    let mut workers: Option<usize> = None;
    let mut cpu_percent: u64 = DEFAULT_CPU_PERCENT_BITS;
    let mut i: usize = 0;
    let ghost goal = outcome(
        all,
        Seen { path: None, workers: None, cpu_percent: DEFAULT_CPU_PERCENT_BITS },
    );
    proof {
        assert(all.skip(0) =~= all);
    }
    while i < args.len()
        invariant
            all == argument_views(args@),
            i <= args@.len(),
            goal == outcome(
                all,
                Seen { path: None, workers: None, cpu_percent: DEFAULT_CPU_PERCENT_BITS },
            ),
            goal == outcome(
                all.skip(i as int),
                (Seen {
                    path: match path {
                        Some(p) => Some(p@),
                        None => None,
                    },
                    workers,
                    cpu_percent,
                }),
            ),
        decreases args@.len() - i,
    {
        let text: &str = args[i].text.as_str();
        let ghost rest = all.skip(i as int);
        proof {
            assert(rest[0] == all[i as int]);
            assert(rest[0].text == text@);
            if i + 1 < args@.len() {
                assert(rest[1] == all[i + 1]);
                assert(rest.skip(2) =~= all.skip(i + 2));
            }
            assert(rest.skip(1) =~= all.skip(i + 1));
        }
        if same(text, "-w") || same(text, "--workers") {
            if i + 1 == args.len() {
                return Err(ArgsError::WorkersMissing);
            }
            match parse_count(args[i + 1].text.as_str()) {
                Some(count) => {
                    workers = Some(count);
                },
                None => {
                    return Err(ArgsError::WorkersNotNumber(args[i + 1].text.clone()));
                },
            }
            i = i + 2;
        } else if same(text, "-c") || same(text, "--cpu") {
            if i + 1 == args.len() {
                return Err(ArgsError::CpuMissing);
            }
            match args[i + 1].number {
                Some(number) => {
                    cpu_percent = number;
                },
                None => {
                    return Err(ArgsError::CpuNotNumber(args[i + 1].text.clone()));
                },
            }
            i = i + 2;
        } else if same(text, "-h") || same(text, "--help") {
            return Ok(Command::Help);
        } else if path.is_none() {
            path = Some(args[i].text.clone());
            i = i + 1;
        } else {
            return Err(ArgsError::Unexpected(args[i].text.clone()));
        }
    }
    match path {
        Some(path) => Ok(Command::Run(Args { path, workers, cpu_percent })),
        None => Err(ArgsError::PathMissing),
    }
}

impl Args {
    /// How many samplers to start.
    pub fn worker_count(&self) -> (r: usize)
        ensures
            r == (match self.workers {
                Some(count) => count,
                None => DEFAULT_WORKERS,
            }),
    {
        match self.workers {
            Some(count) => count,
            None => DEFAULT_WORKERS,
        }
    }
}

/// How the program is called.
pub open spec fn usage() -> Seq<char> {
    "usage: btd [-w/--workers N] [-c/--cpu PERCENT_PER_THREAD] <path>"@
}

/// How the program is called.
pub fn usage_text() -> (r: &'static str)
    ensures
        r@ == usage(),
{
    "usage: btd [-w/--workers N] [-c/--cpu PERCENT_PER_THREAD] <path>"
}

impl ArgsError {
    pub open spec fn message_text(self) -> Seq<char> {
        match self {
            ArgsError::WorkersMissing => "--workers needs a value"@,
            ArgsError::WorkersNotNumber(_) => "--workers must be a number"@,
            ArgsError::CpuMissing => "--cpu needs a value"@,
            ArgsError::CpuNotNumber(_) => "--cpu must be a number (percent)"@,
            ArgsError::Unexpected(text) => "unexpected argument: "@ + text@,
            ArgsError::PathMissing => usage(),
        }
    }

    /// What to tell the user.
    pub fn message(&self) -> (r: String)
        ensures
            r@ == self.message_text(),
    {
        match self {
            ArgsError::WorkersMissing => "--workers needs a value".to_owned(),
            ArgsError::WorkersNotNumber(_) => "--workers must be a number".to_owned(),
            ArgsError::CpuMissing => "--cpu needs a value".to_owned(),
            ArgsError::CpuNotNumber(_) => "--cpu must be a number (percent)".to_owned(),
            ArgsError::Unexpected(text) => {
                let mut r: String = "unexpected argument: ".to_owned();
                r.append(text.as_str());
                r
            },
            ArgsError::PathMissing => usage_text().to_owned(),
        }
    }
}

} // verus!
