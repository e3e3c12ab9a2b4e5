//! Command-line flags of the trainer: `--name value` pairs scanned left
//! to right.
use vstd::prelude::*;
use crate::evolve::KeyLoop;
use crate::keylist::{key_loop_spec, parse_key_loop};
use crate::text::{parse_unsigned, parse_usize};

verus! {

/// The arguments as character sequences.
pub open spec fn args_view(args: Seq<String>) -> Seq<Seq<char>> {
    args.map_values(|a: String| a@)
}

/// The first position `i >= from` holding `name` that has an argument
/// after it.
pub open spec fn find_flag(args: Seq<Seq<char>>, name: Seq<char>, from: int) -> Option<int>
    decreases args.len() - from,
{
    if from < 0 || from + 1 >= args.len() {
        None
    } else if args[from] == name {
        Some(from)
    } else {
        find_flag(args, name, from + 1)
    }
}

/// The value given after the first `name` flag that has one, else `default`.
pub open spec fn flag_text(args: Seq<Seq<char>>, name: Seq<char>, default: Seq<char>) -> Seq<
    char,
> {
    match find_flag(args, name, 0) {
        Some(i) => args[i + 1],
        None => default,
    }
}

/// The string value of flag `name` (the argument after its first
/// occurrence that has one), or `default`.
pub fn parse_str(args: &[String], name: &str, default: &str) -> (r: String)
    ensures
        r@ == flag_text(args_view(args@), name@, default@),
{
    let ghost av = args_view(args@);
    let name_s = String::from_str(name);
    let mut i: usize = 0;
    while i < args.len()
        invariant
            av == args_view(args@),
            name_s@ == name@,
            find_flag(av, name@, 0) == find_flag(av, name@, i as int),
        decreases args.len() - i,
    {
        if args[i] == name_s && i + 1 < args.len() {
            assert(av[i as int] == args@[i as int]@);
            assert(av[i + 1] == args@[i + 1]@);
            return args[i + 1].clone();
        }
        proof {
            if i + 1 < args.len() {
                assert(av[i as int] == args@[i as int]@);
            }
        }
        i += 1;
    }
    String::from_str(default)
}

/// The output directory: the value of `--out`, or `out`.
pub fn parse_out(args: &[String]) -> (r: String)
    ensures
        r@ == flag_text(args_view(args@), "--out"@, "out"@),
{
    parse_str(args, "--out", "out")
}

/// The spelling `--name` of flag `name`.
pub open spec fn flag_spelling(name: Seq<char>) -> Seq<char> {
    seq!['-', '-'] + name
}

/// The first position `i >= from` holding `--name` whose next argument
/// reads as a `usize`.
pub open spec fn find_number_flag(args: Seq<Seq<char>>, name: Seq<char>, from: int) -> Option<
    int,
>
    decreases args.len() - from,
{
    if from < 0 || from + 1 >= args.len() {
        None
    } else if args[from] == flag_spelling(name) && parse_unsigned(
        args[from + 1],
        usize::MAX as nat,
    ) is Some {
        Some(from)
    } else {
        find_number_flag(args, name, from + 1)
    }
}

/// The numeric value of flag `--name`: the first occurrence followed by a
/// `usize` wins; `default` when there is none.
pub open spec fn flag_number(args: Seq<Seq<char>>, name: Seq<char>, default: nat) -> nat {
    match find_number_flag(args, name, 0) {
        Some(i) => parse_unsigned(args[i + 1], usize::MAX as nat)->0,
        None => default,
    }
}

/// The numeric value of flag `--name`, or `default`.
pub fn parse_flag(args: &[String], name: &str, default: usize) -> (r: usize)
    ensures
        r == flag_number(args_view(args@), name@, default as nat),
{
    let ghost av = args_view(args@);
    let mut flag = String::from_str("--");
    flag.append(name);
    proof {
        reveal_strlit("--");
        assert(flag@ =~= flag_spelling(name@));
    }
    let mut i: usize = 0;
    while i < args.len()
        invariant
            av == args_view(args@),
            flag@ == flag_spelling(name@),
            find_number_flag(av, name@, 0) == find_number_flag(av, name@, i as int),
        decreases args.len() - i,
    {
        proof {
            assert(av[i as int] == args@[i as int]@);
            if i + 1 < args.len() {
                assert(av[i + 1] == args@[i + 1]@);
            }
        }
        if args[i] == flag && i + 1 < args.len() {
            if let Some(v) = parse_usize(args[i + 1].as_str()) {
                return v;
            }
        }
        i += 1;
    }
    default
}

/// The seed loop given with `--seed-loop`: exactly twelve keys, else none.
pub open spec fn seed_loop_spec(args: Seq<Seq<char>>) -> Option<Seq<u8>> {
    let s = flag_text(args, "--seed-loop"@, ""@);
    if s.len() == 0 {
        None
    } else {
        key_loop_spec(s)
    }
}

/// The seed loop given with `--seed-loop` (a comma-separated list of
/// twelve keys; keys past 8 act as 8), or `None`.
pub fn parse_loop(args: &[String]) -> (r: Option<KeyLoop>)
    ensures
        match (r, seed_loop_spec(args_view(args@))) {
            (Some(g), Some(v)) => g@ == v,
            (None, None) => true,
            _ => false,
        },
{
    let s = parse_str(args, "--seed-loop", "");
    proof {
        reveal_strlit("");
    }
    if s.as_str().is_empty() {
        return None;
    }
    parse_key_loop(s.as_str())
}

} // verus!
