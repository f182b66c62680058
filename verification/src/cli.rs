//! The command-line options shared by `generate` and `chat`: `--greedy`, `--no-think`,
//! `--max-gen N`, `--max-think N` and `--num-threads N`, with everything else that does not
//! start with `--` kept as positional arguments (e.g. a prompt).

use vstd::prelude::*;

use crate::text::{str_eq, to_chars};

verus! {

/// A decimal digit's value.
pub open spec fn digit_value(c: char) -> int {
    c as int - '0' as int
}

/// Whether `c` is an ASCII decimal digit.
pub open spec fn is_digit(c: char) -> bool {
    '0' <= c <= '9'
}

/// The value of a string of decimal digits.
pub open spec fn decimal_value(d: Seq<char>) -> int
    decreases d.len(),
{
    if d.len() == 0 {
        0
    } else {
        decimal_value(d.drop_last()) * 10 + digit_value(d.last())
    }
}

/// The digits part of an unsigned integer: everything after an optional leading `+`.
pub open spec fn digits_part(s: Seq<char>) -> Seq<char> {
    if s.len() > 0 && s[0] == '+' {
        s.drop_first()
    } else {
        s
    }
}

/// Whether every character of `d` is an ASCII digit.
pub open spec fn all_digits(d: Seq<char>) -> bool {
    forall|i: int| 0 <= i < d.len() ==> is_digit(#[trigger] d[i])
}

/// An unsigned integer the way `usize::from_str` reads it: an optional `+`, then one or more
/// ASCII digits, with a value that fits in `usize`.
pub open spec fn parse_usize_spec(s: Seq<char>) -> Option<usize> {
    let d = digits_part(s);
    if d.len() > 0 && all_digits(d) && decimal_value(d) <= usize::MAX {
        Some(decimal_value(d) as usize)
    } else {
        None
    }
}

proof fn lemma_decimal_nonneg(d: Seq<char>)
    requires
        forall|i: int| 0 <= i < d.len() ==> is_digit(#[trigger] d[i]),
    ensures
        decimal_value(d) >= 0,
    decreases d.len(),
{
    if d.len() > 0 {
        lemma_decimal_nonneg(d.drop_last());
    }
}

/// A longer prefix of digits is worth at least as much.
proof fn lemma_decimal_prefix_grows(d: Seq<char>, k: int)
    requires
        0 <= k <= d.len(),
        forall|i: int| 0 <= i < d.len() ==> is_digit(#[trigger] d[i]),
    ensures
        decimal_value(d.take(k)) <= decimal_value(d),
    decreases d.len() - k,
{
    if k < d.len() {
        lemma_decimal_prefix_grows(d, k + 1);
        assert(d.take(k + 1).drop_last() =~= d.take(k));
        lemma_decimal_nonneg(d.take(k));
        assert(is_digit(d[k]));
    } else {
        assert(d.take(k) =~= d);
    }
}

/// Parse an unsigned decimal integer as `usize::from_str` does.
pub fn parse_usize(s: &str) -> (r: Option<usize>)
    ensures
        r == parse_usize_spec(s@),
{
    let c = to_chars(s);
    let start: usize = if c.len() > 0 && c[0] == '+' {
        1
    } else {
        0
    };
    let ghost d = digits_part(s@);
    assert(d =~= c@.subrange(start as int, c@.len() as int));
    if start == c.len() {
        return None;
    }
    let mut acc: usize = 0;
    let mut i: usize = start;
    while i < c.len()
        invariant
            c@ == s@,
            d == digits_part(s@),
            d =~= c@.subrange(start as int, c@.len() as int),
            start <= i <= c@.len(),
            forall|j: int| 0 <= j < i - start ==> is_digit(#[trigger] d[j]),
            acc == decimal_value(d.take(i - start)),
        decreases c@.len() - i,
    {
        let ch = c[i];
        if !('0' <= ch && ch <= '9') {
            proof {
                let j = i - start;
                assert(!is_digit(d[j]));
                assert(!all_digits(d));
            }
            return None;
        }
        let digit = (ch as u32 - '0' as u32) as usize;
        assert(d.take(i - start + 1).drop_last() =~= d.take(i - start));
        assert(d[i - start] == ch);
        let next = match acc.checked_mul(10) {
            Some(m) => m.checked_add(digit),
            None => None,
        };
        match next {
            Some(v) => {
                acc = v;
            },
            None => {
                proof {
                    let k = i - start + 1;
                    assert(decimal_value(d.take(k)) > usize::MAX);
                    if all_digits(d) {
                        lemma_decimal_prefix_grows(d, k);
                        assert(decimal_value(d) > usize::MAX);
                    }
                }
                return None;
            },
        }
        i += 1;
    }
    assert(d.take(i - start) =~= d);
    Some(acc)
}

/// The per-turn options set on the command line.
#[derive(Clone, Copy, Debug, PartialEq, Eq, Structural)]
pub struct AgentOptions {
    pub max_gen: Option<usize>,
    /// Reasoning-token budget; `Some(0)` for `--no-think`.
    pub max_think: Option<usize>,
    pub greedy: bool,
}

impl Default for AgentOptions {
    fn default() -> (o: Self)
        ensures
            o == (AgentOptions { max_gen: None, max_think: None, greedy: false }),
    {
        AgentOptions { max_gen: None, max_think: None, greedy: false }
    }
}

/// What the command line asks for: the options, the thread-pool sizes requested by each
/// `--num-threads` in order (a process-wide setting applied by the caller), and the
/// positional arguments.
pub struct ParsedArgs {
    pub options: AgentOptions,
    pub num_threads: Vec<usize>,
    pub positional: Vec<String>,
}

/// Why the command line was refused.
#[derive(Debug, PartialEq, Eq)]
pub enum OptionsError {
    /// `flag` came last, without its value.
    MissingValue { flag: String },
    /// `flag`'s value is not an unsigned integer.
    InvalidValue { flag: String, value: String },
    /// `--num-threads 0`.
    ZeroThreads,
    /// An argument starting with `--` that is no known flag.
    UnknownOption { option: String },
}

/// [`OptionsError`] as plain values.
pub enum OptionsFailure {
    MissingValue(Seq<char>),
    InvalidValue(Seq<char>, Seq<char>),
    ZeroThreads,
    UnknownOption(Seq<char>),
}

impl View for OptionsError {
    type V = OptionsFailure;

    open spec fn view(&self) -> OptionsFailure {
        match self {
            OptionsError::MissingValue { flag } => OptionsFailure::MissingValue(flag@),
            OptionsError::InvalidValue { flag, value } => OptionsFailure::InvalidValue(flag@, value@),
            OptionsError::ZeroThreads => OptionsFailure::ZeroThreads,
            OptionsError::UnknownOption { option } => OptionsFailure::UnknownOption(option@),
        }
    }
}

/// Whether `s` starts with `--`.
pub open spec fn is_long_flag(s: Seq<char>) -> bool {
    s.len() >= 2 && s[0] == '-' && s[1] == '-'
}

/// What the arguments from `i` on make of the options, thread requests and positional
/// arguments gathered before `i`.
pub open spec fn parse_from(
    args: Seq<Seq<char>>,
    i: int,
    o: AgentOptions,
    threads: Seq<usize>,
    pos: Seq<Seq<char>>,
) -> Result<(AgentOptions, Seq<usize>, Seq<Seq<char>>), OptionsFailure>
    decreases args.len() - i,
{
    if i < 0 || i >= args.len() {
        Ok((o, threads, pos))
    } else {
        let a = args[i];
        if a == "--greedy"@ {
            parse_from(args, i + 1, AgentOptions { greedy: true, ..o }, threads, pos)
        } else if a == "--no-think"@ {
            parse_from(args, i + 1, AgentOptions { max_think: Some(0), ..o }, threads, pos)
        } else if a == "--max-gen"@ || a == "--max-think"@ || a == "--num-threads"@ {
            if i + 1 >= args.len() {
                Err(OptionsFailure::MissingValue(a))
            } else {
                match parse_usize_spec(args[i + 1]) {
                    None => Err(OptionsFailure::InvalidValue(a, args[i + 1])),
                    Some(n) => {
                        if a == "--max-gen"@ {
                            parse_from(args, i + 2, AgentOptions { max_gen: Some(n), ..o }, threads, pos)
                        } else if a == "--max-think"@ {
                            parse_from(args, i + 2, AgentOptions { max_think: Some(n), ..o }, threads, pos)
                        } else if n == 0 {
                            Err(OptionsFailure::ZeroThreads)
                        } else {
                            parse_from(args, i + 2, o, threads.push(n), pos)
                        }
                    },
                }
            }
        } else if is_long_flag(a) {
            Err(OptionsFailure::UnknownOption(a))
        } else {
            parse_from(args, i + 1, o, threads, pos.push(a))
        }
    }
}

/// Whether `s` starts with `--`.
fn starts_with_dashes(s: &str) -> (r: bool)
    ensures
        r == is_long_flag(s@),
{
    let c = to_chars(s);
    c.len() >= 2 && c[0] == '-' && c[1] == '-'
}

/// Parse the shared agent flags, returning the options, the requested thread-pool sizes and
/// the leftover positional arguments.
pub fn parse_agent_options(args: &[String]) -> (r: Result<ParsedArgs, OptionsError>)
    ensures
        match (r, parse_from(args@.map_values(|s: String| s@), 0, AgentOptions { max_gen: None, max_think: None, greedy: false }, Seq::empty(), Seq::empty())) {
            (Ok(p), Ok((o, t, pos))) => p.options == o && p.num_threads@ == t && p.positional@.map_values(|s: String| s@) == pos,
            (Err(e), Err(f)) => e@ == f,
            _ => false,
        },
{
    let ghost av = args@.map_values(|s: String| s@);
    let ghost init = parse_from(av, 0, AgentOptions { max_gen: None, max_think: None, greedy: false }, Seq::empty(), Seq::empty());
    let mut options = AgentOptions { max_gen: None, max_think: None, greedy: false };
    let mut num_threads: Vec<usize> = Vec::new();
    let mut positional: Vec<String> = Vec::new();
    assert(positional@.map_values(|s: String| s@) =~= Seq::<Seq<char>>::empty());
    let mut i: usize = 0;
    while i < args.len()
        invariant
            av == args@.map_values(|s: String| s@),
            i <= args@.len(),
            init == parse_from(av, 0, AgentOptions { max_gen: None, max_think: None, greedy: false }, Seq::empty(), Seq::empty()),
            init == parse_from(av, i as int, options, num_threads@, positional@.map_values(|s: String| s@)),
        decreases args@.len() - i,
    {
        let a = args[i].as_str();
        assert(av[i as int] == a@);
        proof {
            reveal_strlit("--greedy");
            reveal_strlit("--no-think");
            reveal_strlit("--max-gen");
            reveal_strlit("--max-think");
            reveal_strlit("--num-threads");
        }
        if str_eq(a, "--greedy") {
            options.greedy = true;
            i += 1;
        } else if str_eq(a, "--no-think") {
            options.max_think = Some(0);
            i += 1;
        } else if str_eq(a, "--max-gen") || str_eq(a, "--max-think") || str_eq(a, "--num-threads") {
            if i + 1 >= args.len() {
                return Err(OptionsError::MissingValue { flag: a.to_owned() });
            }
            let v = args[i + 1].as_str();
            assert(av[i + 1] == v@);
            match parse_usize(v) {
                None => {
                    return Err(OptionsError::InvalidValue { flag: a.to_owned(), value: v.to_owned() });
                },
                Some(n) => {
                    if str_eq(a, "--max-gen") {
                        options.max_gen = Some(n);
                    } else if str_eq(a, "--max-think") {
                        options.max_think = Some(n);
                    } else if n == 0 {
                        return Err(OptionsError::ZeroThreads);
                    } else {
                        num_threads.push(n);
                    }
                },
            }
            i += 2;
        } else if starts_with_dashes(a) {
            return Err(OptionsError::UnknownOption { option: a.to_owned() });
        } else {
            let ghost before = positional@.map_values(|s: String| s@);
            positional.push(args[i].clone());
            assert(positional@.map_values(|s: String| s@) =~= before.push(a@));
            i += 1;
        }
    }
    Ok(ParsedArgs { options, num_threads, positional })
}

} // verus!
