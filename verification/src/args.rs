//! Flag lookups over an argument list.
//!
//! The caller collects its arguments into plain strings; these functions
//! decide which flags are present and what value follows a flag.
use vstd::prelude::*;

verus! {

/// The first index whose argument equals `flag`, or -1 when none does.
pub open spec fn first_pos(args: Seq<String>, flag: Seq<char>) -> int
    decreases args.len(),
{
    if args.len() == 0 {
        -1
    } else if args.first()@ == flag {
        0
    } else {
        let rest = first_pos(args.drop_first(), flag);
        if rest == -1 {
            -1
        } else {
            rest + 1
        }
    }
}

/// Some argument equals `flag`.
pub open spec fn has_arg(args: Seq<String>, flag: Seq<char>) -> bool {
    exists|i: int| 0 <= i < args.len() && (#[trigger] args[i])@ == flag
}

proof fn lemma_first_pos_found(args: Seq<String>, flag: Seq<char>, i: int)
    requires
        0 <= i < args.len(),
        args[i]@ == flag,
        forall|j: int| 0 <= j < i ==> (#[trigger] args[j])@ != flag,
    ensures
        first_pos(args, flag) == i,
    decreases i,
{
    if i == 0 {
    } else {
        assert(args[0]@ != flag);
        assert(args.drop_first()[i - 1] == args[i]);
        assert forall|j: int| 0 <= j < i - 1 implies (#[trigger] args.drop_first()[j])@
            != flag by {
            assert(args.drop_first()[j] == args[j + 1]);
        }
        lemma_first_pos_found(args.drop_first(), flag, i - 1);
    }
}

proof fn lemma_first_pos_absent(args: Seq<String>, flag: Seq<char>)
    requires
        forall|j: int| 0 <= j < args.len() ==> (#[trigger] args[j])@ != flag,
    ensures
        first_pos(args, flag) == -1,
    decreases args.len(),
{
    if args.len() > 0 {
        assert forall|j: int| 0 <= j < args.len() - 1 implies (#[trigger] args.drop_first()[j])@
            != flag by {
            assert(args.drop_first()[j] == args[j + 1]);
        }
        lemma_first_pos_absent(args.drop_first(), flag);
    }
}

/// If this flag was supplied, its index; else `None`.
pub fn arg_pos(args: &Vec<String>, flag: &String) -> (r: Option<usize>)
    ensures
        match r {
            Option::Some(i) => first_pos(args@, flag@) == i && i < args@.len(),
            Option::None => first_pos(args@, flag@) == -1,
        },
        (r is Some) == has_arg(args@, flag@),
{
    let mut i: usize = 0;
    while i < args.len()
        invariant
            i <= args@.len(),
            forall|j: int| 0 <= j < i ==> (#[trigger] args@[j])@ != flag@,
        decreases args@.len() - i,
    {
        let candidate = &args[i];
        if candidate.eq(flag) {
            proof {
                lemma_first_pos_found(args@, flag@, i as int);
            }
            return Some(i);
        }
        i = i + 1;
    }
    proof {
        lemma_first_pos_absent(args@, flag@);
        if has_arg(args@, flag@) {
            let w = choose|j: int| 0 <= j < args@.len() && (#[trigger] args@[j])@ == flag@;
        }
    }
    None
}

/// Whether this flag was supplied at all.
pub fn arg_exists(args: &Vec<String>, flag: &String) -> (r: bool)
    ensures
        r == has_arg(args@, flag@),
{
    arg_pos(args, flag).is_some()
}

/// The argument at `index`, or the default when there is none. The
/// caller parses the string it gets back.
pub fn getarg(args: &Vec<String>, index: usize, default: String) -> (r: String)
    ensures
        index < args@.len() ==> r@ == args@[index as int]@,
        index >= args@.len() ==> r@ == default@,
{
    if index < args.len() {
        args[index].clone()
    } else {
        default
    }
}

/// The argument right after the flag, or the default when the flag is
/// missing or stands last.
pub fn after_flag_or(args: &Vec<String>, flag: &String, default: String) -> (r: String)
    ensures
        ({
            let p = first_pos(args@, flag@);
            if 0 <= p && p + 1 < args@.len() {
                r@ == args@[p + 1]@
            } else {
                r@ == default@
            }
        }),
{
    match arg_pos(args, flag) {
        Some(i) => {
            let n = args.len();
            if i + 1 < n {
                args[i + 1].clone()
            } else {
                default
            }
        },
        None => default,
    }
}

} // verus!
