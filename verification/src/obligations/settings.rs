//! How many examples a coverage report shows.
use crate::arguments;
use crate::arguments::parse_usize;
use crate::text;
use crate::text::is_text;
use vstd::prelude::*;

verus! {

/// How many examples arguments ask for: what follows the last flag, ten where that is no
/// number, `limit` where there is none.
pub open spec fn example_limit(args: Seq<Seq<char>>, limit: nat) -> nat
    decreases args.len(),
{
    if args.len() == 0 {
        limit
    } else if args[0] != "--examples"@ {
        example_limit(args.skip(1), limit)
    } else if args.len() == 1 {
        limit
    } else {
        example_limit(
            args.skip(2),
            match arguments::spelled_number(args[1]) {
                Some(n) => n,
                None => 10,
            },
        )
    }
}

/// How many examples the arguments behind the grammar ask for, ten by default.
pub fn examples_wanted(args: &Vec<String>) -> (n: usize)
    ensures
        n == example_limit(text::texts(args@), 10),
{
    let ghost all = text::texts(args@);
    let mut limit: usize = 10;
    let mut i: usize = 0;
    assert(all.skip(0) =~= all);
    while i < args.len()
        invariant
            i <= args@.len(),
            all == text::texts(args@),
            example_limit(all.skip(i as int), limit as nat) == example_limit(all, 10),
        decreases args@.len() - i,
    {
        let ghost rest = all.skip(i as int);
        assert(rest[0] == args@[i as int]@);
        assert(rest.skip(1) =~= all.skip(i + 1));
        if is_text(&args[i], "--examples") {
            if args.len() - i == 1 {
                return limit;
            }
            assert(rest[1] == args@[i + 1]@);
            assert(rest.skip(2) =~= all.skip(i + 2));
            limit = match parse_usize(args[i + 1].as_str()) {
                Some(n) => n,
                None => 10,
            };
            i += 2;
        } else {
            i += 1;
        }
    }
    limit
}

} // verus!
