//! What looking up or adding a symbol does.
use crate::ids::Symbol;
use crate::signature;
use crate::signature::{NameList, SignatureFault};
use vstd::prelude::*;

verus! {

/// A symbol stands for the name and the arity that it was asked for, and every name that was
/// there keeps its symbol and its arity; at most one name is added, behind the others.
pub proof fn law_symbols_stand_for_names(
    list: NameList,
    name: Seq<char>,
    arity: usize,
    f: Symbol,
    after: NameList,
)
    requires
        list.len() < u32::MAX,
        signature::names_differ(list),
        signature::interned(list, name, arity) == Ok::<(Symbol, NameList), SignatureFault>(
            (f, after),
        ),
    ensures
        f.0 < after.len(),
        after[f.0 as int] == (name, arity),
        list.len() <= after.len() <= list.len() + 1,
        forall|i: int| 0 <= i < list.len() ==> #[trigger] after[i] == list[i],
        after.len() == list.len() + 1 <==> !exists|i: int|
            0 <= i < list.len() && (#[trigger] list[i]).0 == name,
        signature::names_differ(after),
{
    if exists|i: int| signature::named(list, name, i) {
        let i = choose|i: int| signature::named(list, name, i);
        assert(list[i].0 == name);
    } else {
        assert forall|i: int| 0 <= i < list.len() implies (#[trigger] list[i]).0 != name by {
            assert(!signature::named(list, name, i));
        }
    }
}

/// A name is refused exactly where it is known with another arity.
pub proof fn law_other_arities_are_refused(list: NameList, name: Seq<char>, arity: usize)
    requires
        signature::names_differ(list),
    ensures
        signature::interned(list, name, arity) is Err <==> exists|i: int|
            0 <= i < list.len() && (#[trigger] list[i]).0 == name && list[i].1 != arity,
        signature::interned(list, name, arity) matches Err(SignatureFault::ArityMismatch(
            n,
            first,
            second,
        )) ==> n == name && second == arity && list.contains((name, first)),
{
    if exists|i: int| signature::named(list, name, i) {
        let i = choose|i: int| signature::named(list, name, i);
        assert(signature::place_of(list, name) == Some(i));
        assert(list[i].0 == name);
        if exists|j: int| 0 <= j < list.len() && (#[trigger] list[j]).0 == name && list[j].1
            != arity {
            let j = choose|j: int|
                0 <= j < list.len() && (#[trigger] list[j]).0 == name && list[j].1 != arity;
            if i < j {
                assert(list[i].0 != list[j].0);
            } else if j < i {
                assert(list[j].0 != list[i].0);
            }
        }
    } else {
        assert forall|i: int| 0 <= i < list.len() implies (#[trigger] list[i]).0 != name by {
            assert(!signature::named(list, name, i));
        }
    }
}

} // verus!
