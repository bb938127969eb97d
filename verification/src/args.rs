//! Command-line argument parsing: flags are consumed left to right, each
//! value flag takes the following argument, a help flag wins immediately,
//! and a missing root path or a malformed count is rejected.

use vstd::prelude::*;
use crate::counts::bytes_eq;
use crate::scanner::Config;
use crate::text::copy_bytes;
use crate::tokenizer::views_of;

verus! {

pub const PLUS: u8 = 43;

pub const DIGIT_ZERO: u8 = 48;

pub const DIGIT_NINE: u8 = 57;

/// What a successful parse asks for: the usage text, or a scan.
pub enum CliRequest {
    Help,
    Scan(Config),
}

/// Why a parse failed.
pub enum ArgError {
    /// A value flag stood last, with nothing after it (holds the flag).
    MissingValue(Vec<u8>),
    /// An argument that is no known flag (holds it).
    UnknownFlag(Vec<u8>),
    /// The count flag's value is not a number that fits.
    InvalidTop,
    /// No root path was given.
    MissingPath,
}

/// The parse's outcome, mathematically.
pub ghost enum ParseOutcome {
    Help,
    Scan { path: Seq<u8>, ext: Option<Seq<u8>>, top: nat, find: Option<Seq<u8>> },
    MissingValue(Seq<u8>),
    UnknownFlag(Seq<u8>),
    InvalidTop,
    MissingPath,
}

pub open spec fn flag_path() -> Seq<u8> {
    seq![45u8, 45u8, 112u8, 97u8, 116u8, 104u8]
}

pub open spec fn flag_ext() -> Seq<u8> {
    seq![45u8, 45u8, 101u8, 120u8, 116u8]
}

pub open spec fn flag_top() -> Seq<u8> {
    seq![45u8, 45u8, 116u8, 111u8, 112u8]
}

pub open spec fn flag_find() -> Seq<u8> {
    seq![45u8, 45u8, 102u8, 105u8, 110u8, 100u8]
}

pub open spec fn flag_help() -> Seq<u8> {
    seq![45u8, 45u8, 104u8, 101u8, 108u8, 112u8]
}

pub open spec fn flag_help_short() -> Seq<u8> {
    seq![45u8, 104u8]
}

/// The numeric value of a digit byte (zero for any other byte).
pub open spec fn digit_of(b: u8) -> nat {
    if DIGIT_ZERO <= b && b <= DIGIT_NINE {
        (b - DIGIT_ZERO) as nat
    } else {
        0
    }
}

/// The decimal value of a digit string, read left to right.
pub open spec fn digits_val(s: Seq<u8>) -> nat
    decreases s.len(),
{
    if s.len() == 0 {
        0
    } else {
        digits_val(s.drop_last()) * 10 + digit_of(s.last())
    }
}

/// The part of a count after an optional leading plus sign.
pub open spec fn numeric_part(s: Seq<u8>) -> Seq<u8> {
    if s.len() > 0 && s[0] == PLUS {
        s.drop_first()
    } else {
        s
    }
}

/// A valid count: an optional plus sign, then at least one digit, and a
/// value that fits the machine's word.
pub open spec fn valid_count(s: Seq<u8>) -> bool {
    &&& numeric_part(s).len() > 0
    &&& forall|j: int|
        0 <= j < numeric_part(s).len() ==> DIGIT_ZERO <= #[trigger] numeric_part(s)[j]
            && numeric_part(s)[j] <= DIGIT_NINE
    &&& digits_val(numeric_part(s)) <= usize::MAX
}

/// The parse of the arguments still to read, given what was read so far.
pub open spec fn parse_args_m(
    args: Seq<Seq<u8>>,
    path: Option<Seq<u8>>,
    ext: Option<Seq<u8>>,
    top: nat,
    find: Option<Seq<u8>>,
) -> ParseOutcome
    decreases args.len(),
{
    if args.len() == 0 {
        match path {
            Option::None => ParseOutcome::MissingPath,
            Option::Some(p) => ParseOutcome::Scan { path: p, ext, top, find },
        }
    } else {
        let a = args[0];
        if a == flag_path() {
            if args.len() == 1 {
                ParseOutcome::MissingValue(a)
            } else {
                parse_args_m(args.skip(2), Option::Some(args[1]), ext, top, find)
            }
        } else if a == flag_ext() {
            if args.len() == 1 {
                ParseOutcome::MissingValue(a)
            } else {
                parse_args_m(args.skip(2), path, Option::Some(args[1]), top, find)
            }
        } else if a == flag_top() {
            if args.len() == 1 {
                ParseOutcome::MissingValue(a)
            } else if !valid_count(args[1]) {
                ParseOutcome::InvalidTop
            } else {
                parse_args_m(args.skip(2), path, ext, digits_val(numeric_part(args[1])), find)
            }
        } else if a == flag_find() {
            if args.len() == 1 {
                ParseOutcome::MissingValue(a)
            } else {
                parse_args_m(args.skip(2), path, ext, top, Option::Some(args[1]))
            }
        } else if a == flag_help() || a == flag_help_short() {
            ParseOutcome::Help
        } else {
            ParseOutcome::UnknownFlag(a)
        }
    }
}

/// The parse of a whole argument list (the count defaults to ten).
pub open spec fn parse_args(args: Seq<Seq<u8>>) -> ParseOutcome {
    parse_args_m(args, Option::None, Option::None, 10, Option::None)
}

/// The view of an optional byte vector.
pub open spec fn opt_view(o: Option<Vec<u8>>) -> Option<Seq<u8>> {
    match o {
        Option::None => Option::None,
        Option::Some(v) => Option::Some(v@),
    }
}

/// Whether an executable parse result carries exactly the mathematical
/// outcome: same variant, same payload.
pub open spec fn outcome_matches(o: ParseOutcome, r: Result<CliRequest, ArgError>) -> bool {
    match r {
        Result::Ok(CliRequest::Help) => o == ParseOutcome::Help,
        Result::Ok(CliRequest::Scan(c)) => o == (ParseOutcome::Scan {
            path: c.path@,
            ext: opt_view(c.ext),
            top: c.top as nat,
            find: opt_view(c.find),
        }),
        Result::Err(ArgError::MissingValue(g)) => o == ParseOutcome::MissingValue(g@),
        Result::Err(ArgError::UnknownFlag(g)) => o == ParseOutcome::UnknownFlag(g@),
        Result::Err(ArgError::InvalidTop) => o == ParseOutcome::InvalidTop,
        Result::Err(ArgError::MissingPath) => o == ParseOutcome::MissingPath,
    }
}

/// A longer digit string never has a smaller value.
proof fn lemma_digits_val_monotone(s: Seq<u8>, k: int)
    requires
        0 <= k <= s.len(),
    ensures
        digits_val(s.take(k)) <= digits_val(s),
    decreases s.len(),
{
    if k == s.len() {
        assert(s.take(k) =~= s);
    } else {
        assert(s.drop_last().take(k) =~= s.take(k));
        lemma_digits_val_monotone(s.drop_last(), k);
        assert(digits_val(s.drop_last()) * 10 >= digits_val(s.drop_last()));
    }
}

fn flag_path_exec() -> (r: Vec<u8>)
    ensures
        r@ == flag_path(),
{
    let mut v: Vec<u8> = Vec::new();
    v.push(45);
    v.push(45);
    v.push(112);
    v.push(97);
    v.push(116);
    v.push(104);
    proof {
        assert(v@ =~= flag_path());
    }
    v
}

fn flag_ext_exec() -> (r: Vec<u8>)
    ensures
        r@ == flag_ext(),
{
    let mut v: Vec<u8> = Vec::new();
    v.push(45);
    v.push(45);
    v.push(101);
    v.push(120);
    v.push(116);
    proof {
        assert(v@ =~= flag_ext());
    }
    v
}

fn flag_top_exec() -> (r: Vec<u8>)
    ensures
        r@ == flag_top(),
{
    let mut v: Vec<u8> = Vec::new();
    v.push(45);
    v.push(45);
    v.push(116);
    v.push(111);
    v.push(112);
    proof {
        assert(v@ =~= flag_top());
    }
    v
}

fn flag_find_exec() -> (r: Vec<u8>)
    ensures
        r@ == flag_find(),
{
    let mut v: Vec<u8> = Vec::new();
    v.push(45);
    v.push(45);
    v.push(102);
    v.push(105);
    v.push(110);
    v.push(100);
    proof {
        assert(v@ =~= flag_find());
    }
    v
}

fn flag_help_exec() -> (r: Vec<u8>)
    ensures
        r@ == flag_help(),
{
    let mut v: Vec<u8> = Vec::new();
    v.push(45);
    v.push(45);
    v.push(104);
    v.push(101);
    v.push(108);
    v.push(112);
    proof {
        assert(v@ =~= flag_help());
    }
    v
}

fn flag_help_short_exec() -> (r: Vec<u8>)
    ensures
        r@ == flag_help_short(),
{
    let mut v: Vec<u8> = Vec::new();
    v.push(45);
    v.push(104);
    proof {
        assert(v@ =~= flag_help_short());
    }
    v
}

/// Parse a count: an optional plus sign, then decimal digits. `None` when
/// anything else appears, nothing follows the sign, or the value does not
/// fit the machine's word.
pub fn parse_count(s: &Vec<u8>) -> (r: Option<usize>)
    ensures
        r is Some <==> valid_count(s@),
        r is Some ==> r->0 == digits_val(numeric_part(s@)),
{
    let ghost np = numeric_part(s@);
    let mut i: usize = 0;
    if s.len() > 0 && s[0] == PLUS {
        i = 1;
    }
    let ghost start = i as int;
    proof {
        assert(np =~= s@.skip(start));
    }
    if i == s.len() {
        proof {
            assert(np.len() == 0);
        }
        return None;
    }
    let mut v: usize = 0;
    while i < s.len()
        invariant
            start <= i <= s@.len(),
            0 <= start <= s@.len(),
            np == s@.skip(start),
            np == numeric_part(s@),
            v == digits_val(np.take(i - start)),
            forall|j: int| 0 <= j < i - start ==> DIGIT_ZERO <= #[trigger] np[j] && np[j]
                <= DIGIT_NINE,
        decreases s@.len() - i,
    {
        let d = s[i];
        proof {
            assert(np[i - start] == s@[i as int]);
        }
        if d < DIGIT_ZERO || d > DIGIT_NINE {
            proof {
                assert(!(DIGIT_ZERO <= np[i - start] && np[i - start] <= DIGIT_NINE));
            }
            return None;
        }
        let d0 = (d - DIGIT_ZERO) as usize;
        proof {
            assert(np.take(i - start + 1).drop_last() =~= np.take(i - start));
            assert(np.take(i - start + 1).last() == np[i - start]);
            assert(digits_val(np.take(i - start + 1)) == v * 10 + d0);
        }
        if v > (usize::MAX - d0) / 10 {
            proof {
                assert(10 * ((usize::MAX - d0) as int / 10) > (usize::MAX - d0) - 10);
                assert(v * 10 + d0 > usize::MAX);
                lemma_digits_val_monotone(np, i - start + 1);
                assert(digits_val(np) > usize::MAX);
            }
            return None;
        }
        proof {
            assert(10 * ((usize::MAX - d0) as int / 10) <= (usize::MAX - d0) as int);
            assert(v * 10 + d0 <= usize::MAX);
        }
        v = v * 10 + d0;
        i = i + 1;
    }
    proof {
        assert(np.take(s@.len() - start) =~= np);
        assert(valid_count(s@));
    }
    Some(v)
}

impl Config {
    /// Parse the command-line arguments (the program's name removed):
    /// each recognized flag takes the following argument as its value, a
    /// help flag answers immediately, anything else is an error, and at
    /// the end a configuration without a root path is refused.
    pub fn from_args(args: &Vec<Vec<u8>>) -> (r: Result<CliRequest, ArgError>)
        ensures
            outcome_matches(parse_args(views_of(args@)), r),
    {
        let ghost av = views_of(args@);
        let f_path = flag_path_exec();
        let f_ext = flag_ext_exec();
        let f_top = flag_top_exec();
        let f_find = flag_find_exec();
        let f_help = flag_help_exec();
        let f_h = flag_help_short_exec();

        let mut path: Option<Vec<u8>> = None;
        let mut ext: Option<Vec<u8>> = None;
        let mut top: usize = 10;
        let mut find: Option<Vec<u8>> = None;
        let mut i: usize = 0;
        proof {
            assert(av.skip(0) =~= av);
        }
        while i < args.len()
            invariant
                0 <= i <= args@.len(),
                av == views_of(args@),
                f_path@ == flag_path(),
                f_ext@ == flag_ext(),
                f_top@ == flag_top(),
                f_find@ == flag_find(),
                f_help@ == flag_help(),
                f_h@ == flag_help_short(),
                parse_args_m(av.skip(i as int), opt_view(path), opt_view(ext), top as nat, opt_view(find))
                    == parse_args(av),
            decreases args@.len() - i,
        {
            proof {
                assert(av.skip(i as int)[0] == args@[i as int]@);
                if i + 1 < args@.len() {
                    assert(av.skip(i as int)[1] == args@[i as int + 1]@);
                }
                if i + 2 <= args@.len() {
                    assert(av.skip(i as int).skip(2) =~= av.skip(i as int + 2));
                }
            }
            let a = &args[i];
            if bytes_eq(a.as_slice(), f_path.as_slice()) {
                if i + 1 == args.len() {
                    return Err(ArgError::MissingValue(copy_bytes(a.as_slice())));
                }
                path = Some(copy_bytes(args[i + 1].as_slice()));
                i = i + 2;
            } else if bytes_eq(a.as_slice(), f_ext.as_slice()) {
                if i + 1 == args.len() {
                    return Err(ArgError::MissingValue(copy_bytes(a.as_slice())));
                }
                ext = Some(copy_bytes(args[i + 1].as_slice()));
                i = i + 2;
            } else if bytes_eq(a.as_slice(), f_top.as_slice()) {
                if i + 1 == args.len() {
                    return Err(ArgError::MissingValue(copy_bytes(a.as_slice())));
                }
                match parse_count(&args[i + 1]) {
                    None => {
                        return Err(ArgError::InvalidTop);
                    },
                    Some(v) => {
                        top = v;
                    },
                }
                i = i + 2;
            } else if bytes_eq(a.as_slice(), f_find.as_slice()) {
                if i + 1 == args.len() {
                    return Err(ArgError::MissingValue(copy_bytes(a.as_slice())));
                }
                find = Some(copy_bytes(args[i + 1].as_slice()));
                i = i + 2;
            } else if bytes_eq(a.as_slice(), f_help.as_slice()) || bytes_eq(
                a.as_slice(),
                f_h.as_slice(),
            ) {
                return Ok(CliRequest::Help);
            } else {
                return Err(ArgError::UnknownFlag(copy_bytes(a.as_slice())));
            }
        }
        proof {
            assert(av.skip(i as int).len() == 0);
        }
        match path {
            None => Err(ArgError::MissingPath),
            Some(p) => Ok(CliRequest::Scan(Config { path: p, ext, top, find })),
        }
    }
}

} // verus!
