//! The command line: `[OPTIONS] <dir>`, with the size threshold in KB, the
//! retention count, the rotate-on-start flag and the file prefix.
use vstd::prelude::*;

use crate::naming::{all_digits, digits_value, is_digit, lemma_digits_value_grows};

verus! {

/// The default size threshold: 10240 KB.
pub const DEFAULT_SIZE_BYTES: u64 = 10485760;

/// The default number of rotated files retained.
pub const DEFAULT_TO_KEEP: u32 = 5;

/// The configuration that the rotation engine consumes.
#[derive(PartialEq, Eq, Debug)]
pub struct Args {
    pub dir: String,
    pub size_bytes: u64,
    pub to_keep: u32,
    pub rotate: bool,
    pub prefix: String,
}

#[derive(PartialEq, Eq, Debug)]
pub enum ArgError {
    ExpectedNumber(String),
    UnknownArgument(String),
    UnableToFindOrCreateDir(String),
    UnexpectedPositionalArg(String),
    ExpectedArgumentFoundFlag { flag: &'static str, found: String },
    MissingDir,
    MissingNumber,
    MissingPrefix,
    MissingArgument,
}

/// Which option's value the next argument is.
#[derive(Clone, Copy, PartialEq, Eq, Debug, Structural)]
pub enum ArgState {
    Idle,
    Size,
    Keep,
    Prefix,
}

/// The settings read so far.
pub struct Partial {
    pub dir: Option<Seq<char>>,
    pub size_bytes: u64,
    pub to_keep: u32,
    pub rotate: bool,
    pub prefix: Option<Seq<char>>,
    pub state: ArgState,
}

/// An `ArgError`, over character sequences.
pub enum ArgFault {
    ExpectedNumber(Seq<char>),
    UnknownArgument(Seq<char>),
    UnableToFindOrCreateDir(Seq<char>),
    UnexpectedPositionalArg(Seq<char>),
    PrefixFoundFlag(Seq<char>),
    MissingDir,
    MissingNumber,
    MissingPrefix,
    MissingArgument,
}

pub open spec fn fault_of(e: ArgError) -> ArgFault {
    match e {
        ArgError::ExpectedNumber(a) => ArgFault::ExpectedNumber(a@),
        ArgError::UnknownArgument(a) => ArgFault::UnknownArgument(a@),
        ArgError::UnableToFindOrCreateDir(a) => ArgFault::UnableToFindOrCreateDir(a@),
        ArgError::UnexpectedPositionalArg(a) => ArgFault::UnexpectedPositionalArg(a@),
        ArgError::ExpectedArgumentFoundFlag { found, .. } => ArgFault::PrefixFoundFlag(found@),
        ArgError::MissingDir => ArgFault::MissingDir,
        ArgError::MissingNumber => ArgFault::MissingNumber,
        ArgError::MissingPrefix => ArgFault::MissingPrefix,
        ArgError::MissingArgument => ArgFault::MissingArgument,
    }
}

/// The digits of an unsigned number, after an optional leading `+`.
pub open spec fn unsigned_digits(s: Seq<char>) -> Seq<char> {
    if s.len() > 0 && s[0] == '+' {
        s.drop_first()
    } else {
        s
    }
}

/// The value of an unsigned decimal number: an optional `+`, then one or
/// more digits.
pub open spec fn unsigned_value(s: Seq<char>) -> Option<nat> {
    let d = unsigned_digits(s);
    if d.len() > 0 && all_digits(d) {
        Some(digits_value(d))
    } else {
        None
    }
}

pub open spec fn is_flag(s: Seq<char>) -> bool {
    s.len() > 0 && s[0] == '-'
}

pub open spec fn initial() -> Partial {
    Partial {
        dir: None,
        size_bytes: DEFAULT_SIZE_BYTES,
        to_keep: DEFAULT_TO_KEEP,
        rotate: false,
        prefix: None,
        state: ArgState::Idle,
    }
}

/// The effect of one argument.
pub open spec fn parse_step(p: Partial, arg: Seq<char>) -> Result<Partial, ArgFault> {
    match p.state {
        ArgState::Size => match unsigned_value(arg) {
            Some(n) => if n * 1024 <= u64::MAX {
                Ok(Partial { size_bytes: (n * 1024) as u64, state: ArgState::Idle, ..p })
            } else {
                Err(ArgFault::ExpectedNumber(arg))
            },
            None => Err(ArgFault::ExpectedNumber(arg)),
        },
        ArgState::Keep => match unsigned_value(arg) {
            Some(n) => if n <= u32::MAX {
                Ok(Partial { to_keep: n as u32, state: ArgState::Idle, ..p })
            } else {
                Err(ArgFault::ExpectedNumber(arg))
            },
            None => Err(ArgFault::ExpectedNumber(arg)),
        },
        ArgState::Prefix => if is_flag(arg) {
            Err(ArgFault::PrefixFoundFlag(arg))
        } else {
            Ok(Partial { prefix: Some(arg), state: ArgState::Idle, ..p })
        },
        ArgState::Idle => if arg == "-s"@ || arg == "--size"@ {
            Ok(Partial { state: ArgState::Size, ..p })
        } else if arg == "-k"@ || arg == "--keep"@ {
            Ok(Partial { state: ArgState::Keep, ..p })
        } else if arg == "-p"@ || arg == "--prefix"@ {
            Ok(Partial { state: ArgState::Prefix, ..p })
        } else if arg == "-r"@ || arg == "--rotate-on-start"@ {
            Ok(Partial { rotate: true, ..p })
        } else if is_flag(arg) {
            Err(ArgFault::UnknownArgument(arg))
        } else if p.dir is Some {
            Err(ArgFault::UnexpectedPositionalArg(arg))
        } else {
            Ok(Partial { dir: Some(arg), ..p })
        },
    }
}

/// The settings after the arguments `args`, in order; the first error stops.
pub open spec fn parse_run(args: Seq<Seq<char>>) -> Result<Partial, ArgFault>
    decreases args.len(),
{
    if args.len() == 0 {
        Ok(initial())
    } else {
        match parse_run(args.drop_last()) {
            Ok(p) => parse_step(p, args.last()),
            Err(e) => Err(e),
        }
    }
}

/// The checks once every argument is read.
pub open spec fn finish(p: Partial) -> Result<Partial, ArgFault> {
    if p.state == ArgState::Size || p.state == ArgState::Keep {
        Err(ArgFault::MissingNumber)
    } else if p.state == ArgState::Prefix {
        Err(ArgFault::MissingArgument)
    } else if p.dir is None {
        Err(ArgFault::MissingDir)
    } else if p.prefix is None {
        Err(ArgFault::MissingPrefix)
    } else {
        Ok(p)
    }
}

/// The outcome of a command line whose first element is the program name.
pub open spec fn parse_spec(args: Seq<Seq<char>>) -> Result<Partial, ArgFault> {
    let rest = if args.len() == 0 { args } else { args.drop_first() };
    match parse_run(rest) {
        Ok(p) => finish(p),
        Err(e) => Err(e),
    }
}

proof fn lemma_run_stops_at_error(args: Seq<Seq<char>>, i: int)
    requires
        0 <= i <= args.len(),
        parse_run(args.subrange(0, i)) is Err,
    ensures
        parse_run(args) == parse_run(args.subrange(0, i)),
    decreases args.len(),
{
    if i < args.len() {
        assert(args.drop_last().subrange(0, i) =~= args.subrange(0, i));
        lemma_run_stops_at_error(args.drop_last(), i);
    } else {
        assert(args.subrange(0, i) =~= args);
    }
}

fn str_eq(a: &str, b: &str) -> (r: bool)
    ensures
        r == (a@ == b@),
{
    let n = a.unicode_len();
    if n != b.unicode_len() {
        return false;
    }
    let mut i: usize = 0;
    while i < n
        invariant
            0 <= i <= n,
            n == a@.len(),
            n == b@.len(),
            forall|j: int| 0 <= j < i ==> a@[j] == b@[j],
        decreases n - i,
    {
        if a.get_char(i) != b.get_char(i) {
            return false;
        }
        i += 1;
    }
    assert(a@ =~= b@);
    true
}

fn starts_with_hyphen(a: &str) -> (r: bool)
    ensures
        r == is_flag(a@),
{
    a.unicode_len() > 0 && a.get_char(0) == '-'
}

/// Reads an unsigned decimal number: an optional `+`, then one or more
/// digits, with a value that fits in `u64`.
pub fn parse_unsigned(s: &str) -> (r: Option<u64>)
    ensures
        match r {
            Some(v) => unsigned_value(s@) == Some(v as nat),
            None => unsigned_value(s@) is None || unsigned_value(s@)->0 > u64::MAX,
        },
{
    let n = s.unicode_len();
    let start: usize = if n > 0 && s.get_char(0) == '+' { 1 } else { 0 };
    let ghost d = unsigned_digits(s@);
    assert(d =~= s@.subrange(start as int, n as int));
    if start >= n {
        return None;
    }
    let mut value: u64 = 0;
    let mut k: usize = start;
    while k < n
        invariant
            start <= k <= n,
            n == s@.len(),
            d == s@.subrange(start as int, n as int),
            d == unsigned_digits(s@),
            all_digits(d.subrange(0, k - start)),
            value == digits_value(d.subrange(0, k - start)),
        decreases n - k,
    {
        let c = s.get_char(k);
        assert(d[k - start] == c);
        if c < '0' || c > '9' {
            assert(!is_digit(d[k - start]));
            return None;
        }
        let ghost before = d.subrange(0, k - start);
        let ghost after = d.subrange(0, k + 1 - start);
        assert(after.drop_last() =~= before);
        assert(after.last() == c);
        assert(all_digits(after)) by {
            assert forall|j: int| 0 <= j < after.len() implies is_digit(#[trigger] after[j]) by {
                if j < before.len() {
                    assert(after[j] == before[j]);
                }
            }
        }
        let wide: u128 = value as u128 * 10 + (c as u32 - '0' as u32) as u128;
        if wide > u64::MAX as u128 {
            proof {
                if all_digits(d) {
                    lemma_digits_value_grows(d, k + 1 - start);
                }
            }
            return None;
        }
        value = wide as u64;
        k += 1;
    }
    assert(d.subrange(0, k - start) =~= d);
    Some(value)
}

pub open spec fn opt_view(o: Option<String>) -> Option<Seq<char>> {
    match o {
        Some(s) => Some(s@),
        None => None,
    }
}

/// `a` holds the settings `p` describes.
pub open spec fn args_match(a: Args, p: Partial) -> bool {
    &&& p.dir == Some(a.dir@)
    &&& p.prefix == Some(a.prefix@)
    &&& a.size_bytes == p.size_bytes
    &&& a.to_keep == p.to_keep
    &&& a.rotate == p.rotate
}

pub open spec fn arg_views(args: Seq<String>) -> Seq<Seq<char>> {
    args.map_values(|a: String| a@)
}

/// Parses the command line; its first element is the program name. An
/// option's value is the argument after it: `-s`/`--size` takes a size in
/// KB, `-k`/`--keep` a retention count, `-p`/`--prefix` the file prefix,
/// which may not start with `-`; `-r`/`--rotate-on-start` takes none. Any
/// other argument starting with `-` is unknown; the one remaining argument is
/// the directory. The first error found is returned; a size whose byte count
/// does not fit in `u64` is not a number. The directory is not created here.
pub fn parse_args(args: &Vec<String>) -> (r: Result<Args, ArgError>)
    ensures
        match r {
            Ok(a) => parse_spec(arg_views(args@)) is Ok && args_match(a, parse_spec(arg_views(args@))->Ok_0),
            Err(e) => parse_spec(arg_views(args@)) == Err::<Partial, ArgFault>(fault_of(e))
                && (e matches ArgError::ExpectedArgumentFoundFlag { flag, found } ==> flag@ == "--prefix"@),
        },
{
    let ghost views = arg_views(args@);
    if args.len() == 0 {
        assert(parse_run(views) == Ok::<Partial, ArgFault>(initial()));
        return Err(ArgError::MissingDir);
    }
    let ghost rest = views.drop_first();
    let mut dir: Option<String> = None;
    let mut state = ArgState::Idle;
    let mut size_bytes: u64 = DEFAULT_SIZE_BYTES;
    let mut to_keep: u32 = DEFAULT_TO_KEEP;
    let mut rotate = false;
    let mut prefix: Option<String> = None;
    assert(rest.subrange(0, 0) =~= Seq::<Seq<char>>::empty());
    let mut i: usize = 1;
    while i < args.len()
        invariant
            1 <= i <= args.len(),
            views == arg_views(args@),
            rest == views.drop_first(),
            parse_run(rest.subrange(0, i - 1)) == Ok::<Partial, ArgFault>(Partial {
                dir: opt_view(dir),
                size_bytes,
                to_keep,
                rotate,
                prefix: opt_view(prefix),
                state,
            }),
        decreases args.len() - i,
    {
        let arg = &args[i];
        let ghost p = Partial { dir: opt_view(dir), size_bytes, to_keep, rotate, prefix: opt_view(prefix), state };
        let ghost upto = rest.subrange(0, i as int);
        proof {
            assert(upto.drop_last() =~= rest.subrange(0, i - 1));
            assert(upto.last() == arg@);
            assert(parse_run(upto) == parse_step(p, arg@));
        }
        let fault: Option<ArgError> = match state {
            ArgState::Size => match parse_unsigned(arg.as_str()) {
                Some(n) => {
                    let bytes: u128 = n as u128 * 1024;
                    if bytes > u64::MAX as u128 {
                        Some(ArgError::ExpectedNumber(arg.clone()))
                    } else {
                        size_bytes = bytes as u64;
                        state = ArgState::Idle;
                        None
                    }
                },
                None => Some(ArgError::ExpectedNumber(arg.clone())),
            },
            ArgState::Keep => match parse_unsigned(arg.as_str()) {
                Some(n) => {
                    if n > u32::MAX as u64 {
                        Some(ArgError::ExpectedNumber(arg.clone()))
                    } else {
                        to_keep = n as u32;
                        state = ArgState::Idle;
                        None
                    }
                },
                None => Some(ArgError::ExpectedNumber(arg.clone())),
            },
            ArgState::Prefix => {
                if starts_with_hyphen(arg.as_str()) {
                    Some(ArgError::ExpectedArgumentFoundFlag { flag: "--prefix", found: arg.clone() })
                } else {
                    prefix = Some(arg.clone());
                    state = ArgState::Idle;
                    None
                }
            },
            ArgState::Idle => {
                let a = arg.as_str();
                if str_eq(a, "-s") || str_eq(a, "--size") {
                    state = ArgState::Size;
                    None
                } else if str_eq(a, "-k") || str_eq(a, "--keep") {
                    state = ArgState::Keep;
                    None
                } else if str_eq(a, "-p") || str_eq(a, "--prefix") {
                    state = ArgState::Prefix;
                    None
                } else if str_eq(a, "-r") || str_eq(a, "--rotate-on-start") {
                    rotate = true;
                    None
                } else if starts_with_hyphen(a) {
                    Some(ArgError::UnknownArgument(arg.clone()))
                } else if dir.is_some() {
                    Some(ArgError::UnexpectedPositionalArg(arg.clone()))
                } else {
                    dir = Some(arg.clone());
                    None
                }
            },
        };
        if let Some(e) = fault {
            proof {
                assert(parse_run(upto) == Err::<Partial, ArgFault>(fault_of(e)));
                lemma_run_stops_at_error(rest, i as int);
            }
            return Err(e);
        }
        i += 1;
    }
    assert(rest.subrange(0, i - 1) =~= rest);
    if state == ArgState::Size || state == ArgState::Keep {
        return Err(ArgError::MissingNumber);
    }
    if state == ArgState::Prefix {
        return Err(ArgError::MissingArgument);
    }
    let dir = match dir {
        Some(d) => d,
        None => return Err(ArgError::MissingDir),
    };
    let prefix = match prefix {
        Some(p) => p,
        None => return Err(ArgError::MissingPrefix),
    };
    Ok(Args { dir, size_bytes, to_keep, rotate, prefix })
}

} // verus!
