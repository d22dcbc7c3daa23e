//! The command line: flags with a value, switches, and the library folder.

use vstd::prelude::*;
use crate::text::{
    decimal, decimals_read_back, occurs_at, parse, parsed, same_text, starts_with, texts,
};

verus! {

/// The argument behind the first `flag`, where there is one.
pub open spec fn value_of(args: Seq<Seq<char>>, flag: Seq<char>) -> Option<Seq<char>>
    decreases args.len(),
{
    if args.len() == 0 {
        None
    } else if args[0] == flag {
        if args.len() > 1 {
            Some(args[1])
        } else {
            None
        }
    } else {
        value_of(args.drop_first(), flag)
    }
}

/// The argument behind the first `flag`, where there is one.
pub fn arg_text(args: &Vec<String>, flag: &str) -> (r: Option<String>)
    ensures
        match r {
            Some(t) => value_of(texts(args@), flag@) == Some(t@),
            None => value_of(texts(args@), flag@) is None,
        },
{
    let ghost all = texts(args@);
    let mut i: usize = 0;
    assert(all.skip(0) =~= all);
    while i < args.len()
        invariant
            i <= args@.len(),
            all == texts(args@),
            value_of(all, flag@) == value_of(all.skip(i as int), flag@),
        decreases args@.len() - i,
    {
        proof {
            assert(all.skip(i as int)[0] == args@[i as int]@);
            assert(all.skip(i as int).drop_first() =~= all.skip(i + 1));
        }
        if same_text(args[i].as_str(), flag) {
            if i + 1 < args.len() {
                assert(all.skip(i as int)[1] == args@[i + 1]@);
                return Some(args[i + 1].clone());
            }
            return None;
        }
        i += 1;
    }
    None
}

/// The number behind the first `flag`; `default` where there is none.
pub open spec fn number_of(args: Seq<Seq<char>>, flag: Seq<char>, default: u32) -> nat {
    match value_of(args, flag) {
        Some(t) => match parsed(t, u32::MAX as nat) {
            Some(n) => n,
            None => default as nat,
        },
        None => default as nat,
    }
}

/// The number behind the first `flag`; `default` where there is none.
pub fn arg_num(args: &Vec<String>, flag: &str, default: u32) -> (r: u32)
    ensures
        r == number_of(texts(args@), flag@, default),
{
    match arg_text(args, flag) {
        Some(t) => match parse(t.as_str(), u32::MAX as u64) {
            Some(n) => n as u32,
            None => default,
        },
        None => default,
    }
}

/// Whether `flag` is among the arguments.
pub fn has_flag(args: &Vec<String>, flag: &str) -> (r: bool)
    ensures
        r == texts(args@).contains(flag@),
{
    let mut i: usize = 0;
    while i < args.len()
        invariant
            i <= args@.len(),
            forall|j: int| 0 <= j < i ==> #[trigger] texts(args@)[j] != flag@,
        decreases args@.len() - i,
    {
        if same_text(args[i].as_str(), flag) {
            assert(texts(args@)[i as int] == flag@);
            return true;
        }
        assert(texts(args@)[i as int] == args@[i as int]@);
        i += 1;
    }
    false
}

/// The library folder: the first bare argument, not a flag nor a flag's value. All flags but --crt
/// and --sw have a value.
pub open spec fn folder_of(args: Seq<Seq<char>>, default: Seq<char>) -> Seq<char>
    decreases args.len(),
{
    if args.len() == 0 {
        default
    } else if occurs_at(args[0], "--"@, 0) {
        if args[0] == "--crt"@ || args[0] == "--sw"@ || args.len() == 1 {
            folder_of(args.drop_first(), default)
        } else {
            folder_of(args.drop_first().drop_first(), default)
        }
    } else {
        args[0]
    }
}

/// The library folder: the first bare argument, not a flag nor a flag's value; `default` without
/// one.
pub fn content_dir(args: &Vec<String>, default: &str) -> (r: String)
    ensures
        r@ == folder_of(texts(args@), default@),
{
    let ghost all = texts(args@);
    let mut i: usize = 0;
    assert(all.skip(0) =~= all);
    while i < args.len()
        invariant
            i <= args@.len(),
            all == texts(args@),
            folder_of(all, default@) == folder_of(all.skip(i as int), default@),
        decreases args@.len() - i,
    {
        proof {
            assert(all.skip(i as int)[0] == args@[i as int]@);
            assert(all.skip(i as int).drop_first() =~= all.skip(i + 1));
        }
        if starts_with(args[i].as_str(), "--") {
            if same_text(args[i].as_str(), "--crt") || same_text(args[i].as_str(), "--sw") || i + 1
                == args.len() {
                i += 1;
            } else {
                assert(all.skip(i + 1).drop_first() =~= all.skip(i + 2));
                i += 2;
            }
        } else {
            return args[i].clone();
        }
    }
    assert(all.skip(all.len() as int) =~= Seq::empty());
    default.to_owned()
}

// ---------------------------------------------------------------- what the command line says

/// A flag has what stands behind it where it first occurs, whatever comes before and after; one that
/// does not occur has nothing.
pub proof fn a_flag_has_what_follows(
    before: Seq<Seq<char>>,
    flag: Seq<char>,
    v: Seq<char>,
    after: Seq<Seq<char>>,
)
    requires
        !before.contains(flag),
    ensures
        value_of(before + seq![flag, v] + after, flag) == Some(v),
        value_of(before, flag) is None,
    decreases before.len(),
{
    let all = before + seq![flag, v] + after;
    if before.len() > 0 {
        let rest = before.drop_first();
        assert(all[0] == before[0]);
        assert(before.contains(before[0]));
        assert(all.drop_first() =~= rest + seq![flag, v] + after);
        assert(!rest.contains(flag)) by {
            if rest.contains(flag) {
                let i = choose|i: int| 0 <= i < rest.len() && rest[i] == flag;
                assert(before[i + 1] == flag);
            }
        }
        a_flag_has_what_follows(rest, flag, v, after);
    } else {
        assert(all[0] == flag);
        assert(all[1] == v);
    }
}

/// A flag with a number behind it gives that number; without the flag the default stands.
pub proof fn a_numbered_flag_gives_its_number(
    before: Seq<Seq<char>>,
    flag: Seq<char>,
    n: u32,
    after: Seq<Seq<char>>,
    default: u32,
)
    requires
        !before.contains(flag),
    ensures
        number_of(before + seq![flag, decimal(n as nat)] + after, flag, default) == n,
        number_of(before, flag, default) == default,
{
    a_flag_has_what_follows(before, flag, decimal(n as nat), after);
    decimals_read_back(n as nat);
}

/// The library is the first argument that is neither a flag nor what stands behind one: --crt and
/// --sw have nothing behind them, all other flags do.
pub proof fn the_library_is_the_first_bare_argument(
    a: Seq<char>,
    v: Seq<char>,
    rest: Seq<Seq<char>>,
    default: Seq<char>,
)
    ensures
        folder_of(Seq::empty(), default) == default,
        !occurs_at(a, "--"@, 0) ==> folder_of(seq![a] + rest, default) == a,
        a == "--crt"@ || a == "--sw"@ ==> folder_of(seq![a] + rest, default) == folder_of(
            rest,
            default,
        ),
        occurs_at(a, "--"@, 0) && a != "--crt"@ && a != "--sw"@ ==> folder_of(
            seq![a, v] + rest,
            default,
        ) == folder_of(rest, default),
{
    reveal_strlit("--");
    reveal_strlit("--crt");
    reveal_strlit("--sw");
    assert("--crt"@.subrange(0, 2) =~= "--"@);
    assert("--sw"@.subrange(0, 2) =~= "--"@);
    assert((seq![a] + rest).drop_first() =~= rest);
    assert((seq![a, v] + rest).drop_first().drop_first() =~= rest);
    assert((seq![a] + rest)[0] == a);
    assert((seq![a, v] + rest)[0] == a);
}

} // verus!
