//! Signatures: the names and arities of symbols.
use crate::ids::{StateId, Symbol};
use crate::interner;
use crate::interner::Interner;
use crate::traits;
use crate::traits::StateKey;
use vstd::prelude::*;

verus! {

/// Symbol names with their arities, in the order of the symbols.
pub type NameList = Seq<(Seq<char>, usize)>;

/// Whether symbol `i` has the given name.
pub open spec fn named(list: NameList, name: Seq<char>, i: int) -> bool {
    0 <= i < list.len() && list[i].0 == name
}

/// The place of the symbol with the given name.
pub open spec fn place_of(list: NameList, name: Seq<char>) -> Option<int> {
    if exists|i: int| named(list, name, i) {
        Some(choose|i: int| named(list, name, i))
    } else {
        None
    }
}

/// Whether no name occurs twice.
pub open spec fn names_differ(list: NameList) -> bool {
    forall|i: int, j: int| 0 <= i < j < list.len() ==> (#[trigger] list[i]).0 != (#[trigger] list[j]).0
}

/// Why a signature refuses a symbol.
#[derive(Debug)]
pub enum SignatureError {
    /// The name is known with another arity.
    ArityMismatch { name: String, first: usize, second: usize },
}

/// Why a signature refuses a symbol.
pub enum SignatureFault {
    ArityMismatch(Seq<char>, usize, usize),
}

impl View for SignatureError {
    type V = SignatureFault;

    open spec fn view(&self) -> SignatureFault {
        match self {
            SignatureError::ArityMismatch { name, first, second } => SignatureFault::ArityMismatch(
                name@,
                *first,
                *second,
            ),
        }
    }
}

/// The symbol for a name and the names after it is looked up or added.
pub open spec fn interned(list: NameList, name: Seq<char>, arity: usize) -> Result<
    (Symbol, NameList),
    SignatureFault,
> {
    match place_of(list, name) {
        Some(i) => if list[i].1 == arity {
            Ok((Symbol(i as u32), list))
        } else {
            Err(SignatureFault::ArityMismatch(name, list[i].1, arity))
        },
        None => Ok((Symbol(list.len() as u32), list.push((name, arity)))),
    }
}

/// A bijection between names and symbols, with the arity of each symbol.
#[derive(Debug)]
pub struct Signature {
    names: Interner<String>,
    arities: Vec<usize>,
}

impl View for Signature {
    type V = NameList;

    closed spec fn view(&self) -> NameList {
        Seq::new(self.names@.len(), |i: int| (self.names@[i]@, self.arities@[i]))
    }
}

proof fn lemma_known(list: Seq<String>, arities: Seq<usize>, name: String)
    requires
        list.len() == arities.len(),
    ensures
        interner::known(list, name.key()) <==> place_of(
            Seq::new(list.len(), |i: int| (list[i]@, arities[i])),
            name@,
        ) is Some,
{
    let all: NameList = Seq::new(list.len(), |i: int| (list[i]@, arities[i]));
    if interner::known(list, name.key()) {
        let i = choose|i: int| #[trigger] interner::keyed(list, i, name.key());
        traits::lemma_text_key_injective(list[i]@, name@);
        assert(named(all, name@, i));
    }
    if place_of(all, name@) is Some {
        let i = choose|i: int| named(all, name@, i);
        assert(interner::keyed(list, i, name.key()));
    }
}

/// The place of a name is the only one that has it.
pub proof fn lemma_place(list: NameList, name: Seq<char>, i: int)
    requires
        names_differ(list),
        named(list, name, i),
    ensures
        place_of(list, name) == Some(i),
{
    let j = choose|j: int| named(list, name, j);
    if j < i {
        assert(list[j].0 != list[i].0);
    }
    if i < j {
        assert(list[i].0 != list[j].0);
    }
}

impl Signature {
    #[verifier::type_invariant]
    spec fn wf(&self) -> bool {
        &&& self.names@.len() == self.arities@.len()
        &&& self.names@.len() <= u32::MAX
        &&& names_differ(self@)
    }

    /// A signature without symbols.
    pub fn new() -> (s: Self)
        ensures
            s@ == NameList::empty(),
    {
        let s = Signature { names: Interner::new(), arities: Vec::new() };
        assert(s@ =~= NameList::empty());
        s
    }

    /// The number of symbols.
    pub fn len(&self) -> (n: usize)
        ensures
            n == self@.len(),
            n <= u32::MAX,
    {
        proof {
            use_type_invariant(self);
        }
        self.arities.len()
    }

    /// The symbol with the given name.
    pub fn get(&self, name: &String) -> (r: Option<Symbol>)
        ensures
            match r {
                Some(f) => place_of(self@, name@) == Some(f.0 as int) && f.0 < self@.len(),
                None => place_of(self@, name@) is None,
            },
    {
        proof {
            use_type_invariant(self);
            lemma_known(self.names@, self.arities@, *name);
        }
        let found: Option<StateId> = self.names.get(name);
        match found {
            Some(id) => {
                proof {
                    traits::lemma_text_key_injective(self.names@[id.0 as int]@, name@);
                    lemma_place(self@, name@, id.0 as int);
                }
                Some(Symbol(id.0))
            },
            None => None,
        }
    }

    /// The name of a symbol.
    pub fn resolve(&self, f: Symbol) -> (name: &String)
        requires
            f.0 < self@.len(),
        ensures
            name@ == self@[f.0 as int].0,
    {
        self.names.resolve(StateId(f.0))
    }

    /// The arity of a symbol.
    pub fn arity(&self, f: Symbol) -> (n: usize)
        requires
            f.0 < self@.len(),
        ensures
            n == self@[f.0 as int].1,
    {
        proof {
            use_type_invariant(self);
        }
        self.arities[f.0 as usize]
    }

    /// The symbol for a name, which is added when it is new. A name keeps its arity.
    pub fn intern(&mut self, name: String, arity: usize) -> (r: Result<Symbol, SignatureError>)
        requires
            old(self)@.len() < u32::MAX,
        ensures
            match r {
                Ok(f) => interned(old(self)@, name@, arity) == Ok::<
                    (Symbol, NameList),
                    SignatureFault,
                >((f, final(self)@)) && f.0 < final(self)@.len(),
                Err(e) => interned(old(self)@, name@, arity) == Err::<
                    (Symbol, NameList),
                    SignatureFault,
                >(e@) && final(self)@ == old(self)@,
            },
            final(self)@.len() <= old(self)@.len() + 1,
    {
        proof {
            use_type_invariant(&*self);
        }
        let found: Option<Symbol> = self.get(&name);
        if let Some(f) = found {
            let first: usize = self.arity(f);
            return if first == arity {
                Ok(f)
            } else {
                Err(SignatureError::ArityMismatch { name, first, second: arity })
            };
        }
        let ghost before = self@;
        proof {
            lemma_known(self.names@, self.arities@, name);
        }
        let n: usize = self.arities.len();
        let mut held = Signature::new();
        std::mem::swap(self, &mut held);
        let Signature { mut names, mut arities } = held;
        let ghost old_names = names@;
        let ghost old_arities = arities@;
        let id: StateId = names.intern(name);
        arities.push(arity);
        proof {
            let now: NameList = Seq::new(names@.len(), |i: int| (names@[i]@, arities@[i]));
            assert(now =~= before.push((name@, arity)));
            assert forall|i: int, j: int| 0 <= i < j < now.len() implies (#[trigger] now[i]).0 != (
            #[trigger] now[j]).0 by {
                if j == before.len() {
                    if before[i].0 == name@ {
                        assert(named(before, name@, i));
                    }
                } else {
                    assert(before[i].0 != before[j].0);
                }
            }
        }
        *self = Signature { names, arities };
        Ok(Symbol(id.0))
    }
}

/// Symbols are stable: looking a name up again with its arity gives the same symbol
/// and adds nothing.
pub proof fn law_interning_again_changes_nothing(
    list: NameList,
    name: Seq<char>,
    arity: usize,
    f: Symbol,
    now: NameList,
)
    requires
        names_differ(list),
        list.len() < u32::MAX,
        interned(list, name, arity) == Ok::<(Symbol, NameList), SignatureFault>((f, now)),
    ensures
        interned(now, name, arity) == Ok::<(Symbol, NameList), SignatureFault>((f, now)),
        names_differ(now),
{
    if place_of(list, name) is None {
        assert forall|i: int, j: int| 0 <= i < j < now.len() implies (#[trigger] now[i]).0 != (
        #[trigger] now[j]).0 by {
            if j == list.len() {
                if list[i].0 == name {
                    assert(named(list, name, i));
                }
            } else {
                assert(list[i].0 != list[j].0);
            }
        }
        assert(named(now, name, list.len() as int));
        lemma_place(now, name, list.len() as int);
    }
}

} // verus!
